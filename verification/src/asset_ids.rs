//! Numbering the assets of a group: an asset's id is the position of its file among the
//! files the group lists.
use vstd::prelude::*;
use vstd::string::StringExecFns;
use crate::ident_case::{change_case, convert_case, IdentCase};
use crate::script_labels::SkyliteProcError;

verus! {

/// A file listed by an asset group: its name without the extension, and its path as it is
/// shown in messages.
pub struct AssetEntry {
    pub stem: String,
    pub shown: String,
}

/// What scanning the first entries of a group gives: the position of the one match found so
/// far, if any; the position of an entry that could not be listed; or the positions of two
/// matches.
pub enum IdScan {
    Going(Option<int>),
    Unlisted(int),
    Ambiguous(int, int),
}

/// Whether the entry is listed and its name, in upper camel case, is `key`.
pub open spec fn entry_matches(e: Result<AssetEntry, String>, key: Seq<char>) -> bool {
    e matches Ok(a) && convert_case(IdentCase::UpperCamelCase, a.stem@) == key
}

/// The scan of the first `k` entries for the names whose upper camel case is `key`.
pub open spec fn id_scan(entries: Seq<Result<AssetEntry, String>>, key: Seq<char>, k: nat) -> IdScan
    decreases k,
{
    if k == 0 {
        IdScan::Going(None)
    } else {
        let j = k - 1;
        match id_scan(entries, key, (k - 1) as nat) {
            IdScan::Going(found) => if entries[j] is Err {
                IdScan::Unlisted(j)
            } else if entry_matches(entries[j], key) {
                match found {
                    Some(m) => IdScan::Ambiguous(m, j),
                    None => IdScan::Going(Some(j)),
                }
            } else {
                IdScan::Going(found)
            },
            other => other,
        }
    }
}

/// Once the scan has stopped on an entry, later entries do not change it.
proof fn lemma_scan_stays(entries: Seq<Result<AssetEntry, String>>, key: Seq<char>, k: nat, k2: nat)
    requires
        k <= k2,
        !(id_scan(entries, key, k) is Going),
    ensures
        id_scan(entries, key, k2) == id_scan(entries, key, k),
    decreases k2 - k,
{
    if k < k2 {
        lemma_scan_stays(entries, key, k, (k2 - 1) as nat);
    }
}

/// Whether `out` is the id of the asset `name` among `entries`: the position of the only entry
/// whose name matches `name` in upper camel case; an error for the first entry that could not
/// be listed before a second match, for a second match, or for no match.
pub open spec fn asset_id_result(
    entries: Seq<Result<AssetEntry, String>>,
    name: Seq<char>,
    out: Result<usize, SkyliteProcError>,
) -> bool {
    match id_scan(entries, convert_case(IdentCase::UpperCamelCase, name), entries.len()) {
        IdScan::Going(Some(m)) => out == Ok::<usize, SkyliteProcError>(m as usize),
        IdScan::Going(None) => out matches Err(SkyliteProcError::DataError(msg)) && msg@ == "Name not found: "@ + name,
        IdScan::Unlisted(e) => out matches Err(SkyliteProcError::OtherError(msg)) && msg@ == "IO Error: "@
            + entries[e]->Err_0@,
        IdScan::Ambiguous(a, b) => out matches Err(SkyliteProcError::DataError(msg)) && msg@ == "Name "@ + name
            + " is ambiguous; both "@ + entries[a]->Ok_0.shown@ + " and "@ + entries[b]->Ok_0.shown@ + " match"@,
    }
}

/// Computes the id of the asset `name` among the files the group lists, in the order it lists
/// them. The ids can be used to reference a particular asset in the encoded data of other
/// assets.
pub fn calc_id_for_asset(entries: &[Result<AssetEntry, String>], name: &str) -> (out: Result<usize, SkyliteProcError>)
    ensures
        asset_id_result(entries@, name@, out),
{
    let name_camel_case = change_case(name, IdentCase::UpperCamelCase);
    let ghost key = name_camel_case@;
    let mut found: Option<usize> = None;
    let mut idx: usize = 0;
    while idx < entries.len()
        invariant
            idx <= entries@.len(),
            key == convert_case(IdentCase::UpperCamelCase, name@),
            name_camel_case@ == key,
            id_scan(entries@, key, idx as nat) == IdScan::Going(
                match found {
                    Some(m) => Some(m as int),
                    None => None::<int>,
                },
            ),
            found matches Some(m) ==> m < idx && entry_matches(entries@[m as int], key),
        decreases entries@.len() - idx,
    {
        match &entries[idx] {
            Err(err) => {
                proof {
                    reveal_strlit("IO Error: ");
                }
                let msg = String::from_str("IO Error: ").concat(err.as_str());
                proof {
                    lemma_scan_stays(entries@, key, (idx + 1) as nat, entries@.len());
                }
                return Err(SkyliteProcError::OtherError(msg));
            },
            Ok(entry) => {
                let camel = change_case(entry.stem.as_str(), IdentCase::UpperCamelCase);
                if camel == name_camel_case {
                    match found {
                        Some(m) => {
                            proof {
                                reveal_strlit("Name ");
                                reveal_strlit(" is ambiguous; both ");
                                reveal_strlit(" and ");
                                reveal_strlit(" match");
                            }
                            let prev = match &entries[m] {
                                Ok(p) => p.shown.as_str(),
                                Err(_) => "",
                            };
                            let msg = String::from_str("Name ").concat(name).concat(" is ambiguous; both ").concat(
                                prev,
                            ).concat(" and ").concat(entry.shown.as_str()).concat(" match");
                            proof {
                                lemma_scan_stays(entries@, key, (idx + 1) as nat, entries@.len());
                            }
                            return Err(SkyliteProcError::DataError(msg));
                        },
                        None => {
                            found = Some(idx);
                        },
                    }
                }
            },
        }
        idx = idx + 1;
    }
    match found {
        Some(m) => Ok(m),
        None => {
            proof {
                reveal_strlit("Name not found: ");
            }
            let msg = String::from_str("Name not found: ").concat(name);
            Err(SkyliteProcError::DataError(msg))
        },
    }
}

} // verus!
