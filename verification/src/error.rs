use vstd::prelude::*;

verus! {

/// The failure categories reported by the renaming pipeline.
#[derive(Clone, Copy, Debug, PartialEq, Eq, Structural)]
pub enum ErrorKind {
    CreateBackup,
    CreateFile,
    CreateSymlink,
    ExistingPath,
    JsonParse,
    ReadFile,
    Rename,
    SameFilename,
    SolveOrder,
}

/// An error of the renaming pipeline: a category plus an optional detail text.
#[derive(Clone, Debug)]
pub struct Error {
    pub kind: ErrorKind,
    pub value: Option<String>,
}

impl Error {
    /// Short human-readable description of the error category.
    pub fn description(&self) -> (r: &str)
        ensures
            self.kind is CreateBackup ==> r@ == "Cannot create a backup of"@,
            self.kind is CreateFile ==> r@ == "Cannot create file"@,
            self.kind is CreateSymlink ==> r@ == "Cannot create symlink"@,
            self.kind is ExistingPath ==> r@ == "Conflict with existing path"@,
            self.kind is JsonParse ==> r@ == "Cannot parse JSON  file"@,
            self.kind is ReadFile ==> r@ == "Cannot open/read file"@,
            self.kind is Rename ==> r@ == "Cannot Rename"@,
            self.kind is SameFilename ==> r@ == "Files will have the same name"@,
            self.kind is SolveOrder ==> r@ == "Cannot solve sorting problem"@,
    {
        match self.kind {
            ErrorKind::CreateBackup => "Cannot create a backup of",
            ErrorKind::CreateFile => "Cannot create file",
            ErrorKind::CreateSymlink => "Cannot create symlink",
            ErrorKind::ExistingPath => "Conflict with existing path",
            ErrorKind::JsonParse => "Cannot parse JSON  file",
            ErrorKind::ReadFile => "Cannot open/read file",
            ErrorKind::Rename => "Cannot Rename",
            ErrorKind::SameFilename => "Files will have the same name",
            ErrorKind::SolveOrder => "Cannot solve sorting problem",
        }
    }
}

} // verus!
