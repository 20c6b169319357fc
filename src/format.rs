//! Where a settings file lives and how its contents are encoded.
use vstd::prelude::*;
use crate::error::Error;
use crate::value::Dict;

verus! {

/// A file name with an optional extension appended after a dot.
pub open spec fn named(name: Seq<char>, ext: Option<Seq<char>>) -> Seq<char> {
    match ext {
        Some(e) => name + seq!['.'] + e,
        None => name,
    }
}

/// `part` placed below the directory `dir`, with a `/` between them when
/// `dir` does not already end in one; an absolute `part` stands alone.
pub open spec fn path_join(dir: Seq<char>, part: Seq<char>) -> Seq<char> {
    if part.len() > 0 && part[0] == '/' {
        part
    } else if dir.len() == 0 || dir.last() == '/' {
        dir + part
    } else {
        dir + seq!['/'] + part
    }
}

pub open spec fn opt_text(o: Option<String>) -> Option<Seq<char>> {
    match o {
        Some(s) => Some(s@),
        None => None,
    }
}

/// `name`, followed by a dot and `ext` when there is one.
pub fn with_extension(name: &String, ext: &Option<String>) -> (r: String)
    ensures
        r@ == named(name@, opt_text(*ext)),
{
    match ext {
        Some(e) => {
            proof {
                reveal_strlit(".");
            }
            name.clone().concat(".").concat(e.as_str())
        },
        None => name.clone(),
    }
}

/// `part` placed below the directory `dir`.
pub fn join_path(dir: &str, part: &str) -> (r: String)
    ensures
        r@ == path_join(dir@, part@),
{
    proof {
        reveal_strlit("/");
    }
    let n = dir.unicode_len();
    if part.unicode_len() > 0 && part.get_char(0) == '/' {
        part.to_owned()
    } else if n == 0 || dir.get_char(n - 1) == '/' {
        dir.to_owned().concat(part)
    } else {
        dir.to_owned().concat("/").concat(part)
    }
}

/// Relies on `dirs::home_dir`: the home directory of the current user, when
/// one is known. It depends on the environment, so nothing is stated of it.
#[verifier::external_body]
fn home_dir() -> (r: Option<String>) {
    match dirs::home_dir() {
        Some(p) => Some(p.display().to_string()),
        None => None,
    }
}

/// The location and the encoding of a settings file, implemented by the user
/// of the library.
///
/// The global file lives at `<home>/<folder>/<filename>[.<extension>]`; the
/// local file at `<current dir>/<local_filename or filename>[.<extension>]`.
pub trait Format {
    /// The name of the file, without the extension.
    fn filename(&self) -> String;

    /// The folder of the global file, relative to the home directory.
    fn folder(&self) -> String;

    /// Encodes the whole tree of a settings store as text.
    fn to_string(&self, parts: &Dict) -> Result<String, Error>;

    /// Decodes text into the tree of a settings store.
    fn from_str(&self, buffer: &str) -> Result<Dict, Error>;

    /// An extension appended to the file name after a dot.
    fn extension(&self) -> Option<String> {
        None
    }

    /// Another name for the local file.
    fn local_filename(&self) -> Option<String> {
        None
    }

    /// The extension of the local file; used only with `local_filename`.
    fn local_extension(&self) -> Option<String> {
        None
    }

    /// The folder of the global file below the home directory; empty when no
    /// home directory is known.
    fn get_path(&self) -> String {
        match home_dir() {
            Some(home) => {
                let folder = self.folder();
                join_path(home.as_str(), folder.as_str())
            },
            None => String::new(),
        }
    }

    /// The full path of the global file; empty when no home directory is known.
    fn get_path_and_file(&self) -> String {
        match home_dir() {
            Some(home) => {
                let folder = self.folder();
                let file = self.get_filename();
                let below = join_path(folder.as_str(), file.as_str());
                join_path(home.as_str(), below.as_str())
            },
            None => String::new(),
        }
    }

    /// The file name with its extension, if any.
    fn get_filename(&self) -> String {
        let name = self.filename();
        let ext = self.extension();
        with_extension(&name, &ext)
    }

    /// The local file name with its extension, when a local name is set.
    fn get_local_filename(&self) -> Option<String> {
        match self.local_filename() {
            Some(name) => {
                let ext = self.local_extension();
                Some(with_extension(&name, &ext))
            },
            None => None,
        }
    }

    /// The full path of the local file inside `current_dir`.
    fn get_local_path_and_filename(&self, current_dir: &str) -> String {
        let name = match self.get_local_filename() {
            Some(local) => local,
            None => self.get_filename(),
        };
        join_path(current_dir, name.as_str())
    }
}

} // verus!
