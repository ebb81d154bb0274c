//! Where the store and the identity live. Paths are the bytes that the
//! operating system uses; the environment comes in as arguments.

use vstd::prelude::*;
use vstd::string::*;

use crate::error::Error;
use crate::text;

verus! {

pub open spec fn absolute(path: Seq<u8>) -> bool {
    path.len() > 0 && path[0] == text::SLASH
}

/// `rel` under `base`: with one slash between, unless `base` ends in one or is
/// empty. An absolute `rel` stands for itself.
pub open spec fn joined(base: Seq<u8>, rel: Seq<u8>) -> Seq<u8> {
    if absolute(rel) {
        rel
    } else {
        under(base) + rel
    }
}

/// What every path under `base` starts with.
pub open spec fn under(base: Seq<u8>) -> Seq<u8> {
    if base.len() > 0 && base.last() != text::SLASH {
        base.push(text::SLASH)
    } else {
        base
    }
}

pub open spec fn view_of(path: Option<Vec<u8>>) -> Option<Seq<u8>> {
    match path {
        Some(path) => Some(path@),
        None => None,
    }
}

/// A value that is set to something.
pub open spec fn given(value: Option<Seq<u8>>) -> bool {
    value matches Some(v) && v.len() > 0
}

/// `base/name` for an absolute XDG base, else `home/fallback/name`, if there is
/// a home. A relative XDG value is ignored.
pub open spec fn xdg_path(
    xdg: Option<Seq<u8>>,
    home: Option<Seq<u8>>,
    fallback: Seq<char>,
    name: Seq<char>,
) -> Option<Seq<u8>> {
    if xdg matches Some(base) && absolute(base) {
        Some(joined(xdg->0, text::utf8(name)))
    } else if given(home) {
        Some(joined(joined(home->0, text::utf8(fallback)), text::utf8(name)))
    } else {
        None
    }
}

pub open spec fn store_path(
    flag: Option<Seq<u8>>,
    keyjar_store: Option<Seq<u8>>,
    xdg_data: Option<Seq<u8>>,
    home: Option<Seq<u8>>,
) -> Option<Seq<u8>> {
    if flag is Some {
        flag
    } else if given(keyjar_store) {
        keyjar_store
    } else {
        xdg_path(xdg_data, home, ".local/share"@, "keyjar"@)
    }
}

pub open spec fn identity_file_path(
    keyjar_identity: Option<Seq<u8>>,
    xdg_config: Option<Seq<u8>>,
    home: Option<Seq<u8>>,
) -> Option<Seq<u8>> {
    if given(keyjar_identity) {
        keyjar_identity
    } else {
        match xdg_path(xdg_config, home, ".config"@, "keyjar"@) {
            Some(dir) => Some(joined(dir, text::utf8("identity"@))),
            None => None,
        }
    }
}

pub fn is_absolute(path: &[u8]) -> (r: bool)
    ensures
        r == absolute(path@),
{
    path.len() > 0 && path[0] == text::SLASH
}

pub fn join(base: &[u8], rel: &[u8]) -> (r: Vec<u8>)
    ensures
        r@ == joined(base@, rel@),
{
    if is_absolute(rel) {
        return text::copy_of(rel);
    }
    let mut out: Vec<u8> = text::copy_of(base);
    if base.len() > 0 && base[base.len() - 1] != text::SLASH {
        out.push(text::SLASH);
    }
    text::append(&mut out, rel);
    out
}

/// The path itself, if it is set and not empty.
fn non_empty(path: Option<Vec<u8>>) -> (r: Option<Vec<u8>>)
    ensures
        r is Some <==> given(view_of(path)),
        r is Some ==> r == path,
{
    match path {
        Some(p) => if p.len() > 0 {
            Some(p)
        } else {
            None
        },
        None => None,
    }
}

/// The store directory: the flag, then `KEYJAR_STORE`, then the XDG data
/// directory, then the one under the home directory.
pub fn store_dir_from(
    flag: Option<Vec<u8>>,
    keyjar_store: Option<Vec<u8>>,
    xdg_data: Option<Vec<u8>>,
    home: Option<Vec<u8>>,
) -> (r: Result<Vec<u8>, Error>)
    ensures
        match store_path(view_of(flag), view_of(keyjar_store), view_of(xdg_data), view_of(home)) {
            Some(path) => r matches Ok(p) && p@ == path,
            None => r matches Err(e) && e@ == "HOME is not set"@,
        },
{
    if let Some(path) = flag {
        return Ok(path);
    }
    if let Some(path) = non_empty(keyjar_store) {
        return Ok(path);
    }
    xdg_join(xdg_data, home, ".local/share", "keyjar")
}

/// The identity file: `KEYJAR_IDENTITY`, then one in the XDG configuration
/// directory, then one under the home directory.
pub fn identity_path_from(
    keyjar_identity: Option<Vec<u8>>,
    xdg_config: Option<Vec<u8>>,
    home: Option<Vec<u8>>,
) -> (r: Result<Vec<u8>, Error>)
    ensures
        match identity_file_path(view_of(keyjar_identity), view_of(xdg_config), view_of(home)) {
            Some(path) => r matches Ok(p) && p@ == path,
            None => r matches Err(e) && e@ == "HOME is not set"@,
        },
{
    if let Some(path) = non_empty(keyjar_identity) {
        return Ok(path);
    }
    match xdg_join(xdg_config, home, ".config", "keyjar") {
        Ok(dir) => Ok(join(dir.as_slice(), "identity".as_bytes())),
        Err(e) => Err(e),
    }
}

/// The XDG rules say that a relative XDG value must be ignored.
pub fn xdg_join(
    xdg: Option<Vec<u8>>,
    home: Option<Vec<u8>>,
    home_fallback: &str,
    name: &str,
) -> (r: Result<Vec<u8>, Error>)
    ensures
        match xdg_path(view_of(xdg), view_of(home), home_fallback@, name@) {
            Some(path) => r matches Ok(p) && p@ == path,
            None => r matches Err(e) && e@ == "HOME is not set"@,
        },
{
    if let Some(base) = xdg {
        if is_absolute(base.as_slice()) {
            return Ok(join(base.as_slice(), name.as_bytes()));
        }
    }
    match non_empty(home) {
        Some(home) => {
            let dir: Vec<u8> = join(home.as_slice(), home_fallback.as_bytes());
            Ok(join(dir.as_slice(), name.as_bytes()))
        },
        None => Err(Error::of("HOME is not set")),
    }
}

} // verus!
