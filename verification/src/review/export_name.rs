//! The name offered for the reviewed CSV.

use vstd::prelude::*;

use crate::text::push_str;

verus! {

/// The name offered when no file stem is known.
pub const DEFAULT_EXPORT_NAME: &'static str = "transactions_reviewed.csv";

/// The name offered for the reviewed CSV of a file with this stem.
pub open spec fn export_name_text(stem: Option<Seq<char>>) -> Seq<char> {
    match stem {
        Some(s) => s + "_reviewed.csv"@,
        None => DEFAULT_EXPORT_NAME@,
    }
}

/// `part` stands somewhere in `whole`, as a contiguous run of characters.
pub open spec fn is_part_of(part: Seq<char>, whole: Seq<char>) -> bool {
    exists|i: int| 0 <= i && i + part.len() <= whole.len() && #[trigger] whole.subrange(i, i + part.len()) == part
}

/// A name that is a single file name on every platform: no `/`, `\` or `:`, not `.` and not
/// ending in `..`.
pub open spec fn is_plain_name(name: Seq<char>) -> bool {
    &&& forall|k: int| 0 <= k < name.len() ==> #[trigger] name[k] != '/' && name[k] != '\\' && name[k] != ':'
    &&& name != seq!['.']
    &&& !(name.len() >= 2 && name[name.len() - 1] == '.' && name[name.len() - 2] == '.')
}

/// The position of the last `.` of `name`, or -1 when it has none.
pub open spec fn last_dot(name: Seq<char>) -> int
    decreases name.len(),
{
    if name.len() == 0 {
        -1
    } else if name.last() == '.' {
        name.len() - 1
    } else {
        last_dot(name.drop_last())
    }
}

/// The stem of a plain file name as `Path::file_stem` documents it: none for the empty name;
/// the whole name when it has no `.` or only a leading one; otherwise what comes before the
/// last `.`.
pub open spec fn plain_file_stem(name: Seq<char>) -> Option<Seq<char>> {
    if name.len() == 0 {
        None
    } else if last_dot(name) <= 0 {
        Some(name)
    } else {
        Some(name.take(last_dot(name)))
    }
}

/// Calls `std::path::Path::file_stem` on `name` and copies the stem (always UTF-8 for a path
/// made from a `&str`). The contract claims what the documentation gives: the stem is a part
/// of the name, and for a plain file name (see [`is_plain_name`]) it is [`plain_file_stem`].
/// Of other names it claims no more, since how they split into components depends on the
/// platform's separators.
#[verifier::external_body]
fn file_stem(name: &str) -> (r: Option<String>)
    ensures
        r matches Some(s) ==> is_part_of(s@, name@),
        is_plain_name(name@) ==> match r {
            Some(s) => plain_file_stem(name@) == Some(s@),
            None => plain_file_stem(name@) is None,
        },
{
    std::path::Path::new(name).file_stem().and_then(|s| s.to_str()).map(|s| s.to_owned())
}

/// The name offered for the reviewed CSV of a file with this stem (see
/// [`export_name_text`]).
pub fn export_name_from_stem(stem: Option<&str>) -> (r: String)
    ensures
        r@ == export_name_text(
            match stem {
                Some(s) => Some(s@),
                None => None,
            },
        ),
{
    match stem {
        Some(s) => {
            let mut out = String::new();
            push_str(&mut out, s);
            push_str(&mut out, "_reviewed.csv");
            out
        },
        None => {
            let mut out = String::new();
            push_str(&mut out, DEFAULT_EXPORT_NAME);
            out
        },
    }
}

/// The name offered for the reviewed CSV of the file that was loaded, if any: its stem
/// followed by `_reviewed.csv`, or the default name.
pub fn default_export_name(picked_name: Option<&str>) -> (r: String)
    ensures
        match picked_name {
            None => r@ == DEFAULT_EXPORT_NAME@,
            Some(n) => {
                &&& is_plain_name(n@) ==> r@ == export_name_text(plain_file_stem(n@))
                &&& exists|stem: Option<Seq<char>>|
                    {
                        &&& (stem matches Some(s) ==> is_part_of(s, n@))
                        &&& r@ == #[trigger] export_name_text(stem)
                    }
            },
        },
{
    match picked_name {
        Some(name) => {
            let stem = file_stem(name);
            match stem {
                Some(s) => {
                    let r = export_name_from_stem(Some(s.as_str()));
                    assert(r@ == export_name_text(Some(s@)));
                    r
                },
                None => {
                    let r = export_name_from_stem(None);
                    assert(r@ == export_name_text(None));
                    r
                },
            }
        },
        None => export_name_from_stem(None),
    }
}

} // verus!
