use crate::strings::{ends_with, without_tail};
use vstd::prelude::*;
use vstd::string::{StrSliceExecFns, StringExecFns};

verus! {

/// What the name of every per-target artifact ends in.
pub open spec fn artifact_suffix() -> Seq<char> {
    ".instructions.stats.csv"@
}

/// The file name of the artifact of target `id`.
pub open spec fn artifact_name_spec(id: Seq<char>) -> Seq<char> {
    id + artifact_suffix()
}

/// The target whose artifact has this file name, if it is the name of one.
pub open spec fn contract_id_spec(file_name: Seq<char>) -> Option<Seq<char>> {
    let n = file_name.len() - artifact_suffix().len();
    if n >= 0 && file_name.subrange(n, file_name.len() as int) == artifact_suffix() {
        Some(file_name.subrange(0, n))
    } else {
        None
    }
}

/// The name of a target's artifact leads back to the target.
pub proof fn lemma_artifact_name_round_trip(id: Seq<char>)
    ensures
        contract_id_spec(artifact_name_spec(id)) == Some(id),
{
    let name = artifact_name_spec(id);
    let n = name.len() - artifact_suffix().len();
    assert(n == id.len());
    assert(name.subrange(n, name.len() as int) =~= artifact_suffix());
    assert(name.subrange(0, n) =~= id);
}

/// Names the artifact of a target.
pub fn artifact_name(contract_id: &str) -> (r: String)
    ensures
        r@ == artifact_name_spec(contract_id@),
{
    String::from_str(contract_id).concat(".instructions.stats.csv")
}

/// Tells which target an artifact belongs to, going by its file name.
pub fn contract_id_of(file_name: &str) -> (r: Option<String>)
    ensures
        match contract_id_spec(file_name@) {
            None => r is None,
            Some(id) => r is Some && r->0@ == id,
        },
{
    let suffix = ".instructions.stats.csv";
    if ends_with(file_name, suffix) {
        Some(without_tail(file_name, suffix.unicode_len()))
    } else {
        None
    }
}

} // verus!
