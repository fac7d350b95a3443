//! Structural diff and patch of tagged parameter trees whose structs may
//! repeat keys, with a path grammar that addresses nodes inside such trees.
use vstd::prelude::*;

use crate::diff::{diff_spec, lemma_diff_no_bad_return};
use crate::value::{Value, struct_model};

pub mod diff;
pub mod hash;
pub mod key;
pub mod patch;
pub mod path;
pub mod text;
pub mod value;

pub use diff::{generate_diff, generate_diff_list, generate_diff_struct};
pub use hash::{HashRegistry, add_hash, add_hashes, get, try_get};
pub use key::{PrcKey, PrcKeyError, PrcKeyType};
pub use patch::{apply_patch, apply_patch_list, apply_patch_struct};
pub use value::{Hash40, ParamKind, ParamList, ParamStruct, ParamTag};

verus! {

/// Why a diff or a patch could not be made.
#[derive(Debug, Clone, Copy, PartialEq, Eq, Structural)]
pub enum Error {
    /// A list in the patch is shorter than the list it is applied to.
    ShortPatchList,
    /// The two nodes compared at one position have different tags.
    NotSamePType,
    /// An occurrence that the struct diff relies on is missing from the source.
    BadReturn,
}

/// The patch that turns struct `source` into struct `result`: `None` where
/// they are equal.
pub fn generate_patch(source: &ParamStruct, result: &ParamStruct) -> (r: Result<Option<ParamStruct>, Error>)
    ensures
        match diff_spec(Value::Struct(struct_model(source.0@)), Value::Struct(struct_model(result.0@))) {
            Ok(Some(Value::Struct(p))) => r matches Ok(Some(s)) && struct_model(s.0@) == p,
            Ok(Some(_)) => r == Err::<Option<ParamStruct>, Error>(Error::BadReturn),
            Ok(None) => r matches Ok(None),
            Err(e) => r == Err::<Option<ParamStruct>, Error>(e),
        },
        !(r matches Err(Error::BadReturn)),
{
    proof {
        lemma_diff_no_bad_return(Value::Struct(struct_model(source.0@)), Value::Struct(struct_model(result.0@)));
    }
    match generate_diff_struct(source, result) {
        Ok(Some(ParamKind::Struct(s))) => Ok(Some(s)),
        Ok(Some(_)) => Err(Error::BadReturn),
        Ok(None) => Ok(None),
        Err(e) => Err(e),
    }
}

} // verus!
