//! The round trip through an editor: which editor, where, and what came of it.

use vstd::prelude::*;
use vstd::string::*;

use crate::crypt;
use crate::crypt::Identity;
use crate::error::Error;
use crate::host::Seen;
use crate::name::Name;
use crate::output;
use crate::paths;
use crate::store;
use crate::store::Store;
use crate::text;

verus! {

/// The editor that a variable names: it is set, it is text, and not blank.
pub open spec fn editor_in(var: Option<Seq<u8>>) -> Option<Seq<char>> {
    match var {
        Some(bytes) => if vstd::utf8::valid_utf8(bytes) && text::trimmed(
            vstd::utf8::decode_utf8(bytes),
        ).len() > 0 {
            Some(vstd::utf8::decode_utf8(bytes))
        } else {
            None
        },
        None => None,
    }
}

/// The editor to use.
pub fn editor_of(var: Option<Vec<u8>>) -> (r: Result<String, Error>)
    ensures
        match editor_in(paths::view_of(var)) {
            Some(editor) => r matches Ok(s) && s@ == editor,
            None => r matches Err(e) && e@ == "EDITOR is not set"@,
        },
{
    if let Some(bytes) = var {
        if let Ok(editor) = text::decode(bytes.as_slice()) {
            proof {
                vstd::utf8::encode_utf8_decode_utf8(editor@);
                vstd::utf8::encode_utf8_valid_utf8(editor@);
            }
            let chars: Vec<char> = text::chars_of(editor.as_str());
            if text::trim(chars.as_slice()).len() > 0 {
                return Ok(editor);
            }
        }
    }
    Err(Error::of("EDITOR is not set"))
}

/// A program and its arguments.
pub struct Invocation {
    pub program: String,
    pub args: Vec<String>,
}

/// The program to run and its arguments: the words of the editor. It is not run
/// through a shell, so a quoted path with spaces does not survive.
pub fn editor_command(editor: &str) -> (r: Result<Invocation, Error>)
    ensures
        if text::words(editor@).len() == 0 {
            r matches Err(e) && e@ == "EDITOR is empty"@
        } else {
            r matches Ok(i) && i.program@ == text::words(editor@)[0] && text::texts(i.args@)
                == text::words(editor@).drop_first()
        },
{
    let mut words: Vec<String> = text::split_words(editor);
    proof {
        assert(text::texts(words@).len() == words@.len());
    }
    if words.len() == 0 {
        return Err(Error::of("EDITOR is empty"));
    }
    let ghost all = words@;
    let program: String = words.remove(0);
    proof {
        assert(program@ == text::texts(all)[0]);
        assert(text::texts(words@) =~= text::texts(all).drop_first());
    }
    Ok(Invocation { program, args: words })
}

/// Where the plaintext goes: under the runtime directory, if that is absolute;
/// else it is up to the system. The runtime directory is a per-user tmpfs, so the
/// plaintext stays off the disk.
pub fn workspace_base(xdg_runtime: Option<Vec<u8>>) -> (r: Option<Vec<u8>>)
    ensures
        paths::view_of(r) == (match paths::view_of(xdg_runtime) {
            Some(dir) => if paths::absolute(dir) {
                Some(dir)
            } else {
                None
            },
            None => None,
        }),
{
    match xdg_runtime {
        Some(dir) => if paths::is_absolute(dir.as_slice()) {
            Some(dir)
        } else {
            None
        },
        None => None,
    }
}

/// What editing starts from: the value of the entry, or nothing if there is none
/// yet.
pub fn initial_value(store: &Store, seen: &Seen, identity: &Identity, name: &Name) -> (r: Result<
    Vec<u8>,
    Error,
>)
    ensures
        match store::read_seen(*seen, store@, name@, crypt::public_of(identity@)) {
            Err(message) => r matches Err(e) && e@ == message,
            Ok(None) => r matches Ok(value) && value@.len() == 0,
            Ok(Some(ciphertext)) => match crypt::opened(identity@, ciphertext) {
                Some(value) => r matches Ok(v) && v@ == value,
                None => r matches Err(e) && crypt::begins(e@, output::sealed_text(name@)),
            },
        },
{
    match store.read(seen, name, &identity.to_public()) {
        Err(e) => Err(e),
        Ok(None) => Ok(Vec::new()),
        Ok(Some(ciphertext)) => output::open_entry(identity, name, ciphertext.as_slice()),
    }
}

/// How the editor left. `Failed` holds how its exit is worded.
pub enum Editor {
    Left(Vec<u8>),
    Failed(String),
}

/// What came of an edit. Unchanged means that the ciphertext is left alone.
#[derive(Debug, PartialEq, Eq)]
pub enum EditOutcome {
    Changed(Vec<u8>),
    Unchanged,
}

pub open spec fn editor_text(status: Seq<char>) -> Seq<char> {
    "editor exited with "@ + status + "; value unchanged"@
}

/// Judge an edit. A failing editor aborts it, whatever it left in the file.
pub fn edit_outcome(initial: &[u8], editor: Editor) -> (r: Result<EditOutcome, Error>)
    ensures
        match editor {
            Editor::Failed(status) => r matches Err(e) && e@ == editor_text(status@),
            Editor::Left(bytes) => if bytes@ == initial@ {
                r matches Ok(EditOutcome::Unchanged)
            } else {
                r matches Ok(EditOutcome::Changed(value)) && value@ == bytes@
            },
        },
{
    match editor {
        Editor::Failed(status) => {
            let mut message: String = text::concat("editor exited with ", status.as_str());
            message.append("; value unchanged");
            Err(Error::new(message))
        },
        Editor::Left(bytes) => if text::same_bytes(bytes.as_slice(), initial) {
            Ok(EditOutcome::Unchanged)
        } else {
            Ok(EditOutcome::Changed(bytes))
        },
    }
}

} // verus!
