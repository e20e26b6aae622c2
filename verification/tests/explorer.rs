use editor_core::explorer::{
    handle_prompt_key, remove_prompt_for, toggle_current, Command, Event, Explorer, FileInfo,
    FileType, Found, Handled, KeyCode, KeyEvent, PromptAction, PromptStep, Rank, Rect, State,
    Toggle, EDITOR_MIN_WIDTH, MAX_HISTORY_SIZE,
};

fn key(c: char) -> KeyEvent {
    KeyEvent { code: KeyCode::Char(c), shift: false, control: false, alt: false }
}

fn shift(c: char) -> KeyEvent {
    KeyEvent { shift: true, ..key(c) }
}

fn ctrl(c: char) -> KeyEvent {
    KeyEvent { control: true, ..key(c) }
}

fn special(code: KeyCode) -> KeyEvent {
    KeyEvent { code, shift: false, control: false, alt: false }
}

fn explorer() -> Explorer<&'static str, &'static str> {
    Explorer::new("tree", "/root", 30)
}

#[test]
fn state_starts_open_and_unfiltered() {
    let state = State::new(true, "/root");
    assert!(state.focus);
    assert!(state.open);
    assert_eq!(state.current_root, "/root");
    assert_eq!(state.area_width, 0);
    assert_eq!(state.filter, "");
    assert!(!State::new(false, "/root").focus);
}

#[test]
fn new_explorer_has_the_focus() {
    let e = explorer();
    assert_eq!(e.tree, "tree");
    assert!(e.history.is_empty());
    assert!(!e.show_help);
    assert!(!e.show_preview);
    assert!(e.is_focus());
    assert!(e.is_opened());
    assert_eq!(e.state.current_root, "/root");
    assert_eq!(e.prompt, None);
    assert_eq!(e.column_width(), 30);
}

#[test]
fn root_entry_comes_first() {
    let root = FileInfo::root("/a");
    assert_eq!(root.file_type, FileType::Root);
    assert_eq!(root.path, "/a");
    let file = FileInfo { file_type: FileType::File, path: "/a/f" };
    let folder = FileInfo { file_type: FileType::Folder, path: "/a/d" };
    assert!(root.is_parent());
    assert!(folder.is_parent());
    assert!(!file.is_parent());
    assert_eq!(root.rank(&file, false, Rank::Greater), Rank::Less);
    assert_eq!(file.rank(&root, false, Rank::Less), Rank::Greater);
    assert_eq!(root.rank(&root, true, Rank::Equal), Rank::Less);
}

#[test]
fn folders_come_before_files_of_the_same_folder() {
    let file = FileInfo { file_type: FileType::File, path: "/a/a" };
    let folder = FileInfo { file_type: FileType::Folder, path: "/a/z" };
    assert_eq!(folder.rank(&file, true, Rank::Greater), Rank::Less);
    assert_eq!(file.rank(&folder, true, Rank::Less), Rank::Greater);
    // In different folders the paths decide.
    assert_eq!(folder.rank(&file, false, Rank::Greater), Rank::Greater);
    assert_eq!(file.rank(&folder, false, Rank::Less), Rank::Less);
    // Two of a kind are ordered by their paths.
    assert_eq!(file.rank(&file, true, Rank::Equal), Rank::Equal);
    assert_eq!(folder.rank(&folder, true, Rank::Less), Rank::Less);
}

#[test]
fn focus_and_close() {
    let mut e = explorer();
    e.unfocus();
    assert!(!e.is_focus());
    assert!(e.is_opened());
    e.close();
    assert!(!e.is_focus());
    assert!(!e.is_opened());
    e.focus();
    assert!(e.is_focus());
    assert!(e.is_opened());
}

#[test]
fn toggles() {
    let mut e = explorer();
    e.toggle_help();
    assert!(e.show_help);
    assert!(!e.show_preview);
    e.toggle_preview();
    assert!(e.show_preview);
    e.toggle_help();
    e.toggle_preview();
    assert!(!e.show_help);
    assert!(!e.show_preview);
}

#[test]
fn size_grows_as_far_as_the_editor_keeps_its_room() {
    let mut e = explorer();
    e.state.area_width = 42;
    e.increase_size();
    assert_eq!(e.column_width(), 31);
    e.increase_size();
    assert_eq!(e.column_width(), 32);
    e.increase_size();
    assert_eq!(e.column_width(), 32);
    // In a narrower area the column shrinks to what is left.
    e.state.area_width = 25;
    e.increase_size();
    assert_eq!(e.column_width(), 15);
    e.state.area_width = EDITOR_MIN_WIDTH - 1;
    e.increase_size();
    assert_eq!(e.column_width(), 0);
    let mut wide: Explorer<&str, &str> = Explorer::new("tree", "/root", u16::MAX);
    wide.state.area_width = u16::MAX;
    wide.increase_size();
    assert_eq!(wide.column_width(), u16::MAX - EDITOR_MIN_WIDTH);
}

#[test]
fn size_shrinks_down_to_nothing() {
    let mut e: Explorer<&str, &str> = Explorer::new("tree", "/root", 1);
    e.decrease_size();
    assert_eq!(e.column_width(), 0);
    e.decrease_size();
    assert_eq!(e.column_width(), 0);
}

#[test]
fn change_root_remembers_the_view() {
    let mut e = explorer();
    e.change_root("styles", "/root/styles");
    assert_eq!(e.tree, "styles");
    assert_eq!(e.state.current_root, "/root/styles");
    assert_eq!(e.history, vec!["tree"]);
    e.change_root("public", "/root/styles/public");
    assert_eq!(e.history, vec!["tree", "styles"]);
    e.go_to_previous_root();
    assert_eq!(e.tree, "styles");
    assert_eq!(e.history, vec!["tree"]);
    // The root that is shown is not the one that the state names.
    assert_eq!(e.state.current_root, "/root/styles/public");
    e.go_to_previous_root();
    assert_eq!(e.tree, "tree");
    e.go_to_previous_root();
    assert_eq!(e.tree, "tree");
    assert!(e.history.is_empty());
}

#[test]
fn history_is_bounded() {
    let mut e: Explorer<usize, usize> = Explorer::new(0, 0, 30);
    for i in 1..=MAX_HISTORY_SIZE + 5 {
        e.change_root(i, i);
    }
    assert_eq!(e.tree, MAX_HISTORY_SIZE + 5);
    // The first views are kept, the later ones were not taken.
    let kept: Vec<usize> = (0..MAX_HISTORY_SIZE).collect();
    assert_eq!(e.history, kept);
    e.push_history(99);
    assert_eq!(e.history, kept);
}

#[test]
fn keys_are_mapped_to_commands() {
    assert_eq!(special(KeyCode::Esc).to_command(), Command::Unfocus);
    assert_eq!(key('q').to_command(), Command::Close);
    assert_eq!(key('?').to_command(), Command::ToggleHelp);
    assert_eq!(key('a').to_command(), Command::NewCreateFilePrompt);
    assert_eq!(shift('A').to_command(), Command::NewCreateFolderPrompt);
    assert_eq!(shift('B').to_command(), Command::ChangeRootParentFolder);
    assert_eq!(key(']').to_command(), Command::ChangeRootToCurrentFolder);
    assert_eq!(key('[').to_command(), Command::GoToPreviousRoot);
    assert_eq!(key('d').to_command(), Command::NewRemovePrompt);
    assert_eq!(key('r').to_command(), Command::NewRenamePrompt);
    assert_eq!(key('-').to_command(), Command::DecreaseSize);
    assert_eq!(key('_').to_command(), Command::DecreaseSize);
    assert_eq!(key('+').to_command(), Command::IncreaseSize);
    assert_eq!(key('=').to_command(), Command::IncreaseSize);
    assert_eq!(ctrl('t').to_command(), Command::TogglePreview);
}

#[test]
fn other_keys_are_for_the_tree() {
    assert_eq!(key('j').to_command(), Command::Tree);
    assert_eq!(special(KeyCode::Enter).to_command(), Command::Tree);
    assert_eq!(special(KeyCode::Other).to_command(), Command::Tree);
    // The modifiers count.
    assert_eq!(key('A').to_command(), Command::Tree);
    assert_eq!(shift('a').to_command(), Command::Tree);
    assert_eq!(ctrl('q').to_command(), Command::Tree);
    assert_eq!(key('t').to_command(), Command::Tree);
    assert_eq!(KeyEvent { alt: true, ..key('q') }.to_command(), Command::Tree);
    assert_eq!(KeyEvent { shift: true, ..special(KeyCode::Esc) }.to_command(), Command::Tree);
    assert_eq!(KeyEvent { control: true, ..shift('A') }.to_command(), Command::Tree);
}

#[test]
fn events_are_sorted_out_before_keys() {
    let mut e = explorer();
    assert_eq!(e.handle_event(&Event::Key(key('q')), true), Handled::Tree);
    assert!(e.is_opened());
    assert_eq!(e.handle_event(&Event::Resize, false), Handled::Consumed);
    assert_eq!(e.handle_event(&Event::Other, false), Handled::Ignored);
    e.unfocus();
    assert_eq!(e.handle_event(&Event::Key(key('q')), false), Handled::Ignored);
    assert!(e.is_opened());
    assert_eq!(e.handle_event(&Event::Resize, false), Handled::Consumed);
}

#[test]
fn own_commands_are_carried_out() {
    let mut e = explorer();
    e.state.area_width = 80;
    assert_eq!(e.handle_event(&Event::Key(key('?')), false), Handled::Consumed);
    assert!(e.show_help);
    assert_eq!(e.handle_event(&Event::Key(ctrl('t')), false), Handled::Consumed);
    assert!(e.show_preview);
    assert_eq!(e.handle_event(&Event::Key(key('+')), false), Handled::Consumed);
    assert_eq!(e.column_width(), 31);
    assert_eq!(e.handle_event(&Event::Key(key('_')), false), Handled::Consumed);
    assert_eq!(e.column_width(), 30);
    e.change_root("styles", "/root/styles");
    assert_eq!(e.handle_event(&Event::Key(key('[')), false), Handled::Consumed);
    assert_eq!(e.tree, "tree");
    assert_eq!(e.handle_event(&Event::Key(special(KeyCode::Esc)), false), Handled::Consumed);
    assert!(!e.is_focus());
    e.focus();
    assert_eq!(e.handle_event(&Event::Key(key('q')), false), Handled::Consumed);
    assert!(!e.is_opened());
}

#[test]
fn other_commands_are_handed_out() {
    let mut e = explorer();
    for (k, command) in [
        (key('a'), Command::NewCreateFilePrompt),
        (shift('A'), Command::NewCreateFolderPrompt),
        (shift('B'), Command::ChangeRootParentFolder),
        (key(']'), Command::ChangeRootToCurrentFolder),
        (key('d'), Command::NewRemovePrompt),
        (key('r'), Command::NewRenamePrompt),
        (key('j'), Command::Tree),
    ] {
        assert_eq!(e.handle_event(&Event::Key(k), false), Handled::Command(command));
    }
    assert!(e.is_focus());
    assert_eq!(e.column_width(), 30);
}

#[test]
fn an_open_prompt_takes_the_key() {
    let mut e = explorer();
    e.prompt = Some(PromptAction::RenameFile);
    assert_eq!(
        e.handle_event(&Event::Key(key('q')), false),
        Handled::Prompt(PromptAction::RenameFile, key('q'))
    );
    assert!(e.is_opened());
    assert_eq!(e.prompt, None);
    assert_eq!(e.handle_event(&Event::Key(key('q')), false), Handled::Consumed);
    assert!(!e.is_opened());
}

#[test]
fn enter_carries_the_prompt_out() {
    let enter = special(KeyCode::Enter);
    let line = "name".to_string();
    assert_eq!(handle_prompt_key(PromptAction::CreateFolder, &enter, &line), PromptStep::NewFolder);
    assert_eq!(handle_prompt_key(PromptAction::CreateFile, &enter, &line), PromptStep::NewFile);
    assert_eq!(handle_prompt_key(PromptAction::RenameFile, &enter, &line), PromptStep::Rename);
    let yes = "y".to_string();
    assert_eq!(handle_prompt_key(PromptAction::RemoveFolder, &enter, &yes), PromptStep::RemoveFolder);
    assert_eq!(handle_prompt_key(PromptAction::RemoveFile, &enter, &yes), PromptStep::RemoveFile);
    for no in ["n", "", "yes", "Y"] {
        let no = no.to_string();
        assert_eq!(handle_prompt_key(PromptAction::RemoveFolder, &enter, &no), PromptStep::Dismiss);
        assert_eq!(handle_prompt_key(PromptAction::RemoveFile, &enter, &no), PromptStep::Dismiss);
    }
}

#[test]
fn escape_drops_the_prompt_and_other_keys_edit_it() {
    let line = "y".to_string();
    for action in [
        PromptAction::CreateFolder,
        PromptAction::CreateFile,
        PromptAction::RemoveFolder,
        PromptAction::RemoveFile,
        PromptAction::RenameFile,
    ] {
        assert_eq!(handle_prompt_key(action, &special(KeyCode::Esc), &line), PromptStep::Dismiss);
        assert_eq!(handle_prompt_key(action, &ctrl('c'), &line), PromptStep::Dismiss);
        assert_eq!(handle_prompt_key(action, &key('c'), &line), PromptStep::Edit);
        assert_eq!(handle_prompt_key(action, &key('y'), &line), PromptStep::Edit);
        assert_eq!(handle_prompt_key(action, &special(KeyCode::Other), &line), PromptStep::Edit);
        assert_eq!(
            handle_prompt_key(action, &KeyEvent { shift: true, ..special(KeyCode::Enter) }, &line),
            PromptStep::Edit
        );
        assert_eq!(
            handle_prompt_key(action, &KeyEvent { alt: true, ..special(KeyCode::Esc) }, &line),
            PromptStep::Edit
        );
    }
}

#[test]
fn the_root_is_not_removable() {
    assert_eq!(remove_prompt_for(FileType::Folder), Some(PromptAction::RemoveFolder));
    assert_eq!(remove_prompt_for(FileType::File), Some(PromptAction::RemoveFile));
    assert_eq!(remove_prompt_for(FileType::Root), None);
}

#[test]
fn toggling_goes_by_what_is_at_the_path() {
    assert_eq!(toggle_current(Found::NoPath), Toggle::Noop);
    assert_eq!(toggle_current(Found::Unreadable), Toggle::Noop);
    assert_eq!(toggle_current(Found::File), Toggle::OpenFile);
    assert_eq!(toggle_current(Found::Folder), Toggle::GetChildsAndInsert);
    assert_eq!(toggle_current(Found::Other), Toggle::UnknownFileType);
}

#[test]
fn small_areas_are_not_drawn_in() {
    assert!(!Rect { x: 0, y: 0, width: 10, height: 5 }.too_small());
    assert!(Rect { x: 0, y: 0, width: 9, height: 5 }.too_small());
    assert!(Rect { x: 0, y: 0, width: 10, height: 4 }.too_small());
    assert!(Rect { x: 7, y: 7, width: 0, height: 0 }.too_small());
}

#[test]
fn the_cursor_goes_to_the_line_of_the_prompt() {
    let area = Rect { x: 3, y: 4, width: 80, height: 20 };
    let mut e = explorer();
    assert_eq!(e.cursor(area, true), None);
    assert_eq!(e.cursor(area, false), None);
    e.prompt = Some(PromptAction::CreateFile);
    assert_eq!(e.cursor(area, true), Some(Rect { x: 35, y: 22, width: 80, height: 1 }));
    assert_eq!(e.cursor(area, false), Some(Rect { x: 3, y: 23, width: 80, height: 1 }));
    // An editor that is no wider than the explorer's column.
    let narrow = Rect { width: 30, ..area };
    assert_eq!(e.cursor(narrow, true), None);
    assert_eq!(e.cursor(narrow, false), Some(Rect { x: 3, y: 23, width: 30, height: 1 }));
    // An area of no height.
    let flat = Rect { height: 0, ..area };
    assert_eq!(e.cursor(flat, true), Some(Rect { x: 35, y: 4, width: 80, height: 1 }));
    assert_eq!(e.cursor(flat, false), Some(Rect { x: 3, y: 4, width: 80, height: 1 }));
}
