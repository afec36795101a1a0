use vstd::prelude::*;

verus! {

/// External editor used to review a batch interactively.
pub enum Editor {
    VIM,
    NOTEPAD,
}

/// One reviewed rename entry, as shown to and edited by the user:
/// `status` marks whether the entry should be applied.
pub struct RenameOperation {
    pub old_name: String,
    pub new_name: String,
    pub status: bool,
}

/// Interactive review mode: holds the editor used for the session.
pub struct InterativeMode {
    pub editor: Editor,
}

/// What `str::to_lowercase` returns for a given character sequence; the
/// result depends on the characters alone.
pub uninterp spec fn lower_of(s: Seq<char>) -> Seq<char>;

/// Relies on str::to_lowercase: folds the letters of `s` to lower case.
#[verifier::external_body]
fn lowercase(s: &str) -> (r: String)
    ensures
        r@ == lower_of(s@),
{
    s.to_lowercase()
}

impl Editor {
    /// Parses an editor name, ignoring letter case.
    pub fn from_str(s: &str) -> (r: Option<Editor>)
        ensures
            lower_of(s@) == "vim"@ ==> r == Some(Editor::VIM),
            lower_of(s@) == "notepad"@ ==> r == Some(Editor::NOTEPAD),
            lower_of(s@) != "vim"@ && lower_of(s@) != "notepad"@ ==> r is None,
    {
        proof {
            reveal_strlit("vim");
            reveal_strlit("notepad");
            assert("vim"@.len() == 3);
            assert("notepad"@.len() == 7);
        }
        let l = lowercase(s);
        if l == "vim".to_owned() {
            Some(Editor::VIM)
        } else if l == "notepad".to_owned() {
            Some(Editor::NOTEPAD)
        } else {
            None
        }
    }

    /// The editor a review session starts with.
    pub fn get_editor() -> (r: Editor)
        ensures
            r is VIM,
    {
        Editor::VIM
    }
}

impl InterativeMode {
    /// A review session with the default editor.
    pub fn new() -> (r: InterativeMode)
        ensures
            r.editor is VIM,
    {
        InterativeMode { editor: Editor::get_editor() }
    }
}

} // verus!
