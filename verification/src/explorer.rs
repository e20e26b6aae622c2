//! The state of a file explorer and what it does with the keys it is sent.
//!
//! The explorer shows a tree of files beside the editor. This module holds
//! what the explorer remembers and decides; reading the file system and
//! drawing are left to whoever owns the tree view, which is a parameter
//! here, as is the type of a path.

use vstd::prelude::*;

verus! {

/// How many earlier tree views the explorer remembers.
pub const MAX_HISTORY_SIZE: usize = 20;

/// How many columns the explorer leaves to the editor when it grows.
pub const EDITOR_MIN_WIDTH: u16 = 10;

/// What an entry of the file tree is.
#[derive(PartialEq, Eq, PartialOrd, Ord, Debug, Clone, Copy, Structural)]
pub enum FileType {
    File,
    Folder,
    Root,
}

/// How one entry stands to another in the order of the file tree.
#[derive(PartialEq, Eq, Debug, Clone, Copy, Structural)]
pub enum Rank {
    /// Before the other.
    Less,
    /// Level with the other.
    Equal,
    /// After the other.
    Greater,
}

/// An entry of the file tree.
#[derive(Debug, Clone)]
pub struct FileInfo<P> {
    pub file_type: FileType,
    pub path: P,
}

/// The order of two entries of the kinds `a` and `b`, given whether they
/// lie in the same folder and how their paths are ordered: the root comes
/// before everything, within one folder the folders come before the files,
/// and the paths decide the rest.
pub open spec fn ranked(a: FileType, b: FileType, same_parent: bool, by_path: Rank) -> Rank {
    if a == FileType::Root {
        Rank::Less
    } else if b == FileType::Root {
        Rank::Greater
    } else if same_parent && a == FileType::Folder && b == FileType::File {
        Rank::Less
    } else if same_parent && a == FileType::File && b == FileType::Folder {
        Rank::Greater
    } else {
        by_path
    }
}

impl<P> FileInfo<P> {
    /// The entry for the root of the tree at `path`.
    pub fn root(path: P) -> (info: Self)
        ensures
            info.file_type == FileType::Root,
            info.path == path,
    {
        Self { file_type: FileType::Root, path }
    }

    /// Whether the entry can have entries below it.
    pub fn is_parent(&self) -> (r: bool)
        ensures
            r == (self.file_type != FileType::File),
    {
        match self.file_type {
            FileType::Folder => true,
            FileType::Root => true,
            FileType::File => false,
        }
    }

    /// How this entry stands to `other` in the order of the file tree, given
    /// whether both have a parent path and it is the same, and how the two
    /// paths are ordered.
    pub fn rank(&self, other: &Self, same_parent: bool, by_path: Rank) -> (r: Rank)
        ensures
            r == ranked(self.file_type, other.file_type, same_parent, by_path),
    {
        match (self.file_type, other.file_type) {
            (FileType::Root, _) => {
                return Rank::Less;
            },
            (_, FileType::Root) => {
                return Rank::Greater;
            },
            _ => {},
        }
        if same_parent {
            match (self.file_type, other.file_type) {
                (FileType::Folder, FileType::File) => {
                    return Rank::Less;
                },
                (FileType::File, FileType::Folder) => {
                    return Rank::Greater;
                },
                _ => {},
            }
        }
        by_path
    }
}

/// What a prompt of the explorer asks for.
#[derive(Clone, Copy, Debug, PartialEq, Eq, Structural)]
pub enum PromptAction {
    CreateFolder,
    CreateFile,
    RemoveFolder,
    RemoveFile,
    RenameFile,
}

/// What the explorer shares with its tree view.
#[derive(Clone, Debug)]
pub struct State<P> {
    pub focus: bool,
    pub open: bool,
    pub current_root: P,
    pub area_width: u16,
    pub filter: String,
}

impl<P> State<P> {
    /// The state of an explorer that is open at `current_root`, with no
    /// filter and no width yet.
    pub fn new(focus: bool, current_root: P) -> (state: Self)
        ensures
            state.focus == focus,
            state.current_root == current_root,
            state.open,
            state.area_width == 0,
            state.filter@.len() == 0,
    {
        Self { focus, current_root, open: true, area_width: 0, filter: String::new() }
    }
}

/// A key of the keyboard.
#[derive(Clone, Copy, Debug, PartialEq, Eq)]
pub enum KeyCode {
    Esc,
    Enter,
    Char(char),
    Other,
}

/// A key press: the key and the modifiers held with it.
#[derive(Clone, Copy, Debug, PartialEq, Eq)]
pub struct KeyEvent {
    pub code: KeyCode,
    pub shift: bool,
    pub control: bool,
    pub alt: bool,
}

/// What reaches the explorer.
#[derive(Clone, Copy, Debug, PartialEq, Eq)]
pub enum Event {
    Key(KeyEvent),
    Resize,
    Other,
}

/// What a key asks of the explorer.
#[derive(Clone, Copy, Debug, PartialEq, Eq, Structural)]
pub enum Command {
    Unfocus,
    Close,
    ToggleHelp,
    NewCreateFilePrompt,
    NewCreateFolderPrompt,
    ChangeRootParentFolder,
    ChangeRootToCurrentFolder,
    GoToPreviousRoot,
    NewRemovePrompt,
    NewRenamePrompt,
    DecreaseSize,
    IncreaseSize,
    TogglePreview,
    /// The key is for the tree view.
    Tree,
}

impl KeyEvent {
    /// The key is the character `c`, pressed with no modifier.
    pub open spec fn is_plain(self, c: char) -> bool {
        self.code == KeyCode::Char(c) && !self.shift && !self.control && !self.alt
    }

    /// The key is the character `c`, pressed with shift alone.
    pub open spec fn is_shift(self, c: char) -> bool {
        self.code == KeyCode::Char(c) && self.shift && !self.control && !self.alt
    }

    /// The key is the character `c`, pressed with control alone.
    pub open spec fn is_control(self, c: char) -> bool {
        self.code == KeyCode::Char(c) && !self.shift && self.control && !self.alt
    }

    /// The key is escape, pressed with no modifier.
    pub open spec fn is_escape(self) -> bool {
        self.code == KeyCode::Esc && !self.shift && !self.control && !self.alt
    }

    /// The key is enter, pressed with no modifier.
    pub open spec fn is_enter(self) -> bool {
        self.code == KeyCode::Enter && !self.shift && !self.control && !self.alt
    }

    /// What the key asks of an explorer that has no prompt open.
    pub open spec fn command(self) -> Command {
        if self.is_escape() {
            Command::Unfocus
        } else if self.is_plain('q') {
            Command::Close
        } else if self.is_plain('?') {
            Command::ToggleHelp
        } else if self.is_plain('a') {
            Command::NewCreateFilePrompt
        } else if self.is_shift('A') {
            Command::NewCreateFolderPrompt
        } else if self.is_shift('B') {
            Command::ChangeRootParentFolder
        } else if self.is_plain(']') {
            Command::ChangeRootToCurrentFolder
        } else if self.is_plain('[') {
            Command::GoToPreviousRoot
        } else if self.is_plain('d') {
            Command::NewRemovePrompt
        } else if self.is_plain('r') {
            Command::NewRenamePrompt
        } else if self.is_plain('-') || self.is_plain('_') {
            Command::DecreaseSize
        } else if self.is_plain('+') || self.is_plain('=') {
            Command::IncreaseSize
        } else if self.is_control('t') {
            Command::TogglePreview
        } else {
            Command::Tree
        }
    }

    /// What the key asks of an explorer that has no prompt open.
    pub fn to_command(&self) -> (c: Command)
        ensures
            c == self.command(),
    {
        let plain = !self.shift && !self.control && !self.alt;
        let shift = self.shift && !self.control && !self.alt;
        let control = !self.shift && self.control && !self.alt;
        match self.code {
            KeyCode::Esc => if plain {
                Command::Unfocus
            } else {
                Command::Tree
            },
            KeyCode::Char(c) => {
                if plain && c == 'q' {
                    Command::Close
                } else if plain && c == '?' {
                    Command::ToggleHelp
                } else if plain && c == 'a' {
                    Command::NewCreateFilePrompt
                } else if shift && c == 'A' {
                    Command::NewCreateFolderPrompt
                } else if shift && c == 'B' {
                    Command::ChangeRootParentFolder
                } else if plain && c == ']' {
                    Command::ChangeRootToCurrentFolder
                } else if plain && c == '[' {
                    Command::GoToPreviousRoot
                } else if plain && c == 'd' {
                    Command::NewRemovePrompt
                } else if plain && c == 'r' {
                    Command::NewRenamePrompt
                } else if plain && (c == '-' || c == '_') {
                    Command::DecreaseSize
                } else if plain && (c == '+' || c == '=') {
                    Command::IncreaseSize
                } else if control && c == 't' {
                    Command::TogglePreview
                } else {
                    Command::Tree
                }
            },
            _ => Command::Tree,
        }
    }
}

/// What is to be done about an open prompt after a key.
#[derive(Clone, Copy, Debug, PartialEq, Eq, Structural)]
pub enum PromptStep {
    /// Create the folder that the line names.
    NewFolder,
    /// Create the file that the line names.
    NewFile,
    /// Close the documents below the current item and remove the folder.
    RemoveFolder,
    /// Close the documents below the current item and remove the file.
    RemoveFile,
    /// Close the documents below the current item and rename it to the line.
    Rename,
    /// Drop the prompt and do nothing.
    Dismiss,
    /// Hand the key to the prompt and keep it open.
    Edit,
}

/// What a key does to an open prompt that asks for `action` and whose line
/// is `line`. Enter carries the action out, a removal only if the line is
/// `y`; escape and control with `c` drop the prompt; every other key edits
/// the line.
pub open spec fn prompt_step(action: PromptAction, key: KeyEvent, line: Seq<char>) -> PromptStep {
    if key.is_enter() {
        match action {
            PromptAction::CreateFolder => PromptStep::NewFolder,
            PromptAction::CreateFile => PromptStep::NewFile,
            PromptAction::RemoveFolder => if line == seq!['y'] {
                PromptStep::RemoveFolder
            } else {
                PromptStep::Dismiss
            },
            PromptAction::RemoveFile => if line == seq!['y'] {
                PromptStep::RemoveFile
            } else {
                PromptStep::Dismiss
            },
            PromptAction::RenameFile => PromptStep::Rename,
        }
    } else if key.is_escape() || key.is_control('c') {
        PromptStep::Dismiss
    } else {
        PromptStep::Edit
    }
}

/// What a key does to an open prompt that asks for `action` and whose line
/// is `line`.
pub fn handle_prompt_key(action: PromptAction, key: &KeyEvent, line: &String) -> (step: PromptStep)
    ensures
        step == prompt_step(action, *key, line@),
{
    let plain = !key.shift && !key.control && !key.alt;
    let control = !key.shift && key.control && !key.alt;
    match key.code {
        KeyCode::Enter => {
            if !plain {
                return PromptStep::Edit;
            }
            let yes = "y".to_owned();
            proof {
                reveal_strlit("y");
                assert(yes@ =~= seq!['y']);
            }
            match action {
                PromptAction::CreateFolder => PromptStep::NewFolder,
                PromptAction::CreateFile => PromptStep::NewFile,
                PromptAction::RemoveFolder => if *line == yes {
                    PromptStep::RemoveFolder
                } else {
                    PromptStep::Dismiss
                },
                PromptAction::RemoveFile => if *line == yes {
                    PromptStep::RemoveFile
                } else {
                    PromptStep::Dismiss
                },
                PromptAction::RenameFile => PromptStep::Rename,
            }
        },
        KeyCode::Esc => if plain {
            PromptStep::Dismiss
        } else {
            PromptStep::Edit
        },
        KeyCode::Char(c) => if control && c == 'c' {
            PromptStep::Dismiss
        } else {
            PromptStep::Edit
        },
        KeyCode::Other => PromptStep::Edit,
    }
}

/// Which prompt asks whether to remove an entry of the given kind; the root
/// is not removable.
pub fn remove_prompt_for(file_type: FileType) -> (r: Option<PromptAction>)
    ensures
        r == match file_type {
            FileType::Folder => Some(PromptAction::RemoveFolder),
            FileType::File => Some(PromptAction::RemoveFile),
            FileType::Root => None,
        },
{
    match file_type {
        FileType::Folder => Some(PromptAction::RemoveFolder),
        FileType::File => Some(PromptAction::RemoveFile),
        FileType::Root => None,
    }
}

/// What was found at the path of an entry of the file tree.
#[derive(Clone, Copy, Debug, PartialEq, Eq, Structural)]
pub enum Found {
    /// The entry has an empty path.
    NoPath,
    /// Nothing could be learned about the path.
    Unreadable,
    /// A file.
    File,
    /// A folder.
    Folder,
    /// Something that is neither a file nor a folder.
    Other,
}

/// What is to be done with an entry of the file tree that was chosen.
#[derive(Clone, Copy, Debug, PartialEq, Eq, Structural)]
pub enum Toggle {
    /// Nothing.
    Noop,
    /// Open the file in the editor; the explorer loses the focus once the
    /// file is open.
    OpenFile,
    /// Read the folder and show what is in it.
    GetChildsAndInsert,
    /// Report that the path is of an unknown kind.
    UnknownFileType,
}

/// What is to be done with an entry that was chosen, given what was found
/// at its path.
pub fn toggle_current(found: Found) -> (r: Toggle)
    ensures
        r == match found {
            Found::NoPath => Toggle::Noop,
            Found::Unreadable => Toggle::Noop,
            Found::File => Toggle::OpenFile,
            Found::Folder => Toggle::GetChildsAndInsert,
            Found::Other => Toggle::UnknownFileType,
        },
{
    match found {
        Found::NoPath => Toggle::Noop,
        Found::Unreadable => Toggle::Noop,
        Found::File => Toggle::OpenFile,
        Found::Folder => Toggle::GetChildsAndInsert,
        Found::Other => Toggle::UnknownFileType,
    }
}

/// An area of the screen, in cells.
#[derive(Clone, Copy, Debug, PartialEq, Eq, Structural)]
pub struct Rect {
    pub x: u16,
    pub y: u16,
    pub width: u16,
    pub height: u16,
}

/// The least width of an area that the explorer is drawn in.
pub const MIN_AREA_WIDTH: u16 = 10;

/// The least height of an area that the explorer is drawn in.
pub const MIN_AREA_HEIGHT: u16 = 5;

impl Rect {
    /// Whether the area is too small to draw the explorer in.
    pub fn too_small(&self) -> (r: bool)
        ensures
            r == (self.width < MIN_AREA_WIDTH || self.height < MIN_AREA_HEIGHT),
    {
        self.width < MIN_AREA_WIDTH || self.height < MIN_AREA_HEIGHT
    }
}

/// What the explorer makes of an event.
#[derive(Clone, Copy, Debug, PartialEq, Eq)]
pub enum Handled {
    /// The event is not for the explorer.
    Ignored,
    /// The event is used up; the explorer has done what it asked.
    Consumed,
    /// The tree view is to handle the event.
    Tree,
    /// A prompt was open and is taken out of the explorer: the key is for
    /// it.
    Prompt(PromptAction, KeyEvent),
    /// The key asks for something that the explorer cannot do alone.
    Command(Command),
}

/// A file explorer around a tree view of type `V`, with paths of type `P`.
pub struct Explorer<V, P> {
    pub tree: V,
    pub history: Vec<V>,
    pub show_help: bool,
    pub show_preview: bool,
    pub state: State<P>,
    pub prompt: Option<PromptAction>,
    pub column_width: u16,
}

/// The earlier views with one more, as far as they are remembered: what is
/// beyond the first `MAX_HISTORY_SIZE` is forgotten.
pub open spec fn remembered<V>(history: Seq<V>, view: V) -> Seq<V> {
    if history.len() < MAX_HISTORY_SIZE {
        history.push(view)
    } else {
        history.take(MAX_HISTORY_SIZE as int)
    }
}

/// The width that an explorer of width `column_width` grows to in an area
/// of width `area_width`: one column more, as far as the editor keeps
/// `EDITOR_MIN_WIDTH` columns.
pub open spec fn grown(area_width: u16, column_width: u16) -> int {
    let room = if area_width >= EDITOR_MIN_WIDTH {
        area_width - EDITOR_MIN_WIDTH
    } else {
        0
    };
    let more = if column_width < u16::MAX {
        column_width + 1
    } else {
        u16::MAX as int
    };
    if room <= more {
        room
    } else {
        more
    }
}

impl<V, P> Explorer<V, P> {
    /// An explorer that shows `tree`, rooted at `current_root`, in a column
    /// of the given width. It has the focus and remembers no earlier view.
    pub fn new(tree: V, current_root: P, column_width: u16) -> (explorer: Self)
        ensures
            explorer.tree == tree,
            explorer.history@.len() == 0,
            !explorer.show_help,
            !explorer.show_preview,
            explorer.state.focus,
            explorer.state.open,
            explorer.state.current_root == current_root,
            explorer.state.area_width == 0,
            explorer.state.filter@.len() == 0,
            explorer.prompt is None,
            explorer.column_width == column_width,
    {
        Self {
            tree,
            history: Vec::new(),
            show_help: false,
            show_preview: false,
            state: State::new(true, current_root),
            prompt: None,
            column_width,
        }
    }

    /// Remembers a tree view, unless `MAX_HISTORY_SIZE` views are
    /// remembered already.
    pub fn push_history(&mut self, tree_view: V)
        ensures
            final(self).history@ == remembered(old(self).history@, tree_view),
            final(self).tree == old(self).tree,
            final(self).show_help == old(self).show_help,
            final(self).show_preview == old(self).show_preview,
            final(self).state == old(self).state,
            final(self).prompt == old(self).prompt,
            final(self).column_width == old(self).column_width,
    {
        self.history.push(tree_view);
        self.history.truncate(MAX_HISTORY_SIZE);
        proof {
            let pushed = old(self).history@.push(tree_view);
            if old(self).history@.len() >= MAX_HISTORY_SIZE {
                assert(pushed.subrange(0, MAX_HISTORY_SIZE as int) =~= old(self).history@.take(
                    MAX_HISTORY_SIZE as int,
                ));
            } else {
                assert(self.history@ =~= pushed);
            }
        }
    }

    /// Shows `tree`, which is rooted at `root`, and remembers the view that
    /// was shown so far.
    pub fn change_root(&mut self, tree: V, root: P)
        ensures
            final(self).tree == tree,
            final(self).history@ == remembered(old(self).history@, old(self).tree),
            final(self).state.current_root == root,
            final(self).state.focus == old(self).state.focus,
            final(self).state.open == old(self).state.open,
            final(self).state.area_width == old(self).state.area_width,
            final(self).state.filter == old(self).state.filter,
            final(self).show_help == old(self).show_help,
            final(self).show_preview == old(self).show_preview,
            final(self).prompt == old(self).prompt,
            final(self).column_width == old(self).column_width,
    {
        let mut shown = tree;
        core::mem::swap(&mut self.tree, &mut shown);
        self.push_history(shown);
        self.state.current_root = root;
    }

    /// Shows the view that was remembered last, if there is one, and
    /// forgets it.
    pub fn go_to_previous_root(&mut self)
        ensures
            old(self).history@.len() == 0 ==> *final(self) == *old(self),
            old(self).history@.len() > 0 ==> {
                &&& final(self).tree == old(self).history@.last()
                &&& final(self).history@ == old(self).history@.drop_last()
                &&& final(self).show_help == old(self).show_help
                &&& final(self).show_preview == old(self).show_preview
                &&& final(self).state == old(self).state
                &&& final(self).prompt == old(self).prompt
                &&& final(self).column_width == old(self).column_width
            },
    {
        if self.history.len() == 0 {
            return ;
        }
        if let Some(tree) = self.history.pop() {
            self.tree = tree;
        }
    }

    /// Gives the explorer the focus and opens it.
    pub fn focus(&mut self)
        ensures
            *final(self) == (Explorer {
                state: State { focus: true, open: true, ..old(self).state },
                ..*old(self)
            }),
    {
        self.state.focus = true;
        self.state.open = true;
    }

    /// Takes the focus from the explorer.
    pub fn unfocus(&mut self)
        ensures
            *final(self) == (Explorer {
                state: State { focus: false, ..old(self).state },
                ..*old(self)
            }),
    {
        self.state.focus = false;
    }

    /// Closes the explorer.
    pub fn close(&mut self)
        ensures
            *final(self) == (Explorer {
                state: State { focus: false, open: false, ..old(self).state },
                ..*old(self)
            }),
    {
        self.state.focus = false;
        self.state.open = false;
    }

    /// Whether the explorer has the focus.
    pub fn is_focus(&self) -> (r: bool)
        ensures
            r == self.state.focus,
    {
        self.state.focus
    }

    /// Whether the explorer is open.
    pub fn is_opened(&self) -> (r: bool)
        ensures
            r == self.state.open,
    {
        self.state.open
    }

    /// The width of the explorer's column.
    pub fn column_width(&self) -> (r: u16)
        ensures
            r == self.column_width,
    {
        self.column_width
    }

    /// Shows the help if it is hidden and hides it if it is shown.
    pub fn toggle_help(&mut self)
        ensures
            *final(self) == (Explorer { show_help: !old(self).show_help, ..*old(self) }),
    {
        self.show_help = !self.show_help;
    }

    /// Shows the preview if it is hidden and hides it if it is shown.
    pub fn toggle_preview(&mut self)
        ensures
            *final(self) == (Explorer { show_preview: !old(self).show_preview, ..*old(self) }),
    {
        self.show_preview = !self.show_preview;
    }

    /// Makes the column one wider, as far as the editor keeps its room.
    pub fn increase_size(&mut self)
        ensures
            final(self).column_width == grown(old(self).state.area_width, old(self).column_width),
            *final(self) == (Explorer { column_width: final(self).column_width, ..*old(self) }),
    {
        let room = self.state.area_width.saturating_sub(EDITOR_MIN_WIDTH);
        let more = self.column_width.saturating_add(1);
        self.column_width = if room <= more {
            room
        } else {
            more
        };
    }

    /// Makes the column one narrower, down to nothing.
    pub fn decrease_size(&mut self)
        ensures
            final(self).column_width == if old(self).column_width == 0 {
                0
            } else {
                old(self).column_width - 1
            },
            *final(self) == (Explorer { column_width: final(self).column_width, ..*old(self) }),
    {
        self.column_width = self.column_width.saturating_sub(1);
    }

    /// The line of the screen that the cursor goes to while a prompt is
    /// open, as an area of height 1 within `area`: the last line but one to
    /// the right of the column where the explorer lies over the editor, the
    /// last line else. There is none without a prompt, nor where the
    /// explorer lies over an editor that is no wider than its column.
    pub open spec fn cursor_area(self, area: Rect, overlay: bool) -> Option<Rect> {
        if self.prompt is None {
            None
        } else if overlay {
            if area.width > self.column_width {
                Some(
                    Rect {
                        x: (area.x + self.column_width + 2) as u16,
                        y: (area.y + if area.height >= 2 {
                            area.height - 2
                        } else {
                            0
                        }) as u16,
                        width: area.width,
                        height: 1,
                    },
                )
            } else {
                None
            }
        } else {
            Some(
                Rect {
                    x: area.x,
                    y: (area.y + if area.height >= 1 {
                        area.height - 1
                    } else {
                        0
                    }) as u16,
                    width: area.width,
                    height: 1,
                },
            )
        }
    }

    /// The line of the screen that the cursor goes to while a prompt is
    /// open. The area and the column lie on a screen that a `u16` can count.
    pub fn cursor(&self, area: Rect, overlay: bool) -> (r: Option<Rect>)
        requires
            area.x + self.column_width + 2 <= u16::MAX,
            area.y + area.height <= u16::MAX,
        ensures
            r == self.cursor_area(area, overlay),
    {
        if self.prompt.is_none() {
            return None;
        }
        if overlay {
            if area.width > self.column_width {
                Some(
                    Rect {
                        x: area.x + self.column_width + 2,
                        y: area.y + area.height.saturating_sub(2),
                        width: area.width,
                        height: 1,
                    },
                )
            } else {
                None
            }
        } else {
            Some(
                Rect {
                    x: area.x,
                    y: area.y + area.height.saturating_sub(1),
                    width: area.width,
                    height: 1,
                },
            )
        }
    }

    /// What the explorer makes of an event, given whether its tree view is
    /// asking for input. A tree view that asks gets every event. Of the
    /// rest, a resize is used up and what is no key is ignored, as is every
    /// key while the explorer lacks the focus. A key goes to the prompt if
    /// one is open, which is then taken out of the explorer. Otherwise the
    /// explorer does what the key asks if it can do so alone, and hands
    /// out the command if it cannot.
    pub fn handle_event(&mut self, event: &Event, tree_prompting: bool) -> (handled: Handled)
        ensures
            handled == old(self).handling(*event, tree_prompting),
            old(self).becomes(*event, tree_prompting, *final(self)),
    {
        if tree_prompting {
            return Handled::Tree;
        }
        let key = match event {
            Event::Key(key) => *key,
            Event::Resize => {
                return Handled::Consumed;
            },
            Event::Other => {
                return Handled::Ignored;
            },
        };
        if !self.is_focus() {
            return Handled::Ignored;
        }
        if let Some(action) = self.prompt.take() {
            return Handled::Prompt(action, key);
        }
        let command = key.to_command();
        match command {
            Command::Unfocus => self.unfocus(),
            Command::Close => self.close(),
            Command::ToggleHelp => self.toggle_help(),
            Command::GoToPreviousRoot => self.go_to_previous_root(),
            Command::DecreaseSize => self.decrease_size(),
            Command::IncreaseSize => self.increase_size(),
            Command::TogglePreview => self.toggle_preview(),
            _ => {
                return Handled::Command(command);
            },
        }
        Handled::Consumed
    }

    /// Whether a command is one that the explorer carries out alone.
    pub open spec fn own_command(command: Command) -> bool {
        match command {
            Command::Unfocus
            | Command::Close
            | Command::ToggleHelp
            | Command::GoToPreviousRoot
            | Command::DecreaseSize
            | Command::IncreaseSize
            | Command::TogglePreview => true,
            _ => false,
        }
    }

    /// Whether `after` is the explorer once it has carried out a command
    /// that it carries out alone.
    pub open spec fn performs(self, command: Command, after: Self) -> bool {
        match command {
            Command::Unfocus => after == (Explorer {
                state: State { focus: false, ..self.state },
                ..self
            }),
            Command::Close => after == (Explorer {
                state: State { focus: false, open: false, ..self.state },
                ..self
            }),
            Command::ToggleHelp => after == (Explorer { show_help: !self.show_help, ..self }),
            Command::GoToPreviousRoot => if self.history@.len() > 0 {
                &&& after.tree == self.history@.last()
                &&& after.history@ == self.history@.drop_last()
                &&& after.show_help == self.show_help
                &&& after.show_preview == self.show_preview
                &&& after.state == self.state
                &&& after.prompt == self.prompt
                &&& after.column_width == self.column_width
            } else {
                after == self
            },
            Command::DecreaseSize => {
                &&& after.column_width == if self.column_width == 0 {
                    0
                } else {
                    self.column_width - 1
                }
                &&& after == (Explorer { column_width: after.column_width, ..self })
            },
            Command::IncreaseSize => {
                &&& after.column_width == grown(self.state.area_width, self.column_width)
                &&& after == (Explorer { column_width: after.column_width, ..self })
            },
            Command::TogglePreview => after == (Explorer {
                show_preview: !self.show_preview,
                ..self
            }),
            _ => after == self,
        }
    }

    /// What the explorer makes of an event.
    pub open spec fn handling(self, event: Event, tree_prompting: bool) -> Handled {
        if tree_prompting {
            Handled::Tree
        } else {
            match event {
                Event::Resize => Handled::Consumed,
                Event::Other => Handled::Ignored,
                Event::Key(key) => if !self.state.focus {
                    Handled::Ignored
                } else {
                    match self.prompt {
                        Some(action) => Handled::Prompt(action, key),
                        None => if Self::own_command(key.command()) {
                            Handled::Consumed
                        } else {
                            Handled::Command(key.command())
                        },
                    }
                },
            }
        }
    }

    /// Whether `after` is the explorer once it has seen an event.
    pub open spec fn becomes(self, event: Event, tree_prompting: bool, after: Self) -> bool {
        match self.handling(event, tree_prompting) {
            Handled::Prompt(_, _) => after == (Explorer { prompt: None, ..self }),
            Handled::Consumed => match event {
                Event::Key(key) => self.performs(key.command(), after),
                _ => after == self,
            },
            _ => after == self,
        }
    }
}

} // verus!
