//! The local backend's verified core: an accessor confined to one sandbox
//! root, and the guard that resolves caller-supplied relative paths against
//! it.
//!
//! The guard is lexical: it splits the request into components, normalizes
//! `.` and `..` on top of the normalized root, and accepts the result only
//! if the normalized root components remain a component-wise prefix. A
//! filesystem-level check for symbolic links (canonicalizing the deepest
//! existing ancestor and re-checking with [`crate::paths::is_within`]) is
//! the unverified shell's part, since it needs the disk.

use vstd::prelude::*;

use crate::errors::Error;
use crate::errors::ErrorKind;
use crate::paths::abs_path_of;
use crate::paths::component_prefix;
use crate::paths::is_absolute;
use crate::paths::join_components;
use crate::paths::normal_components;
use crate::paths::normalize_onto_exec;
use crate::paths::resolved_components;
use crate::paths::sandbox_allows;
use crate::paths::seq_views;
use crate::paths::split_components;
use crate::paths::SEP;
use vstd::string::StrSliceExecFns;
use vstd::string::StringSliceAdditionalSpecFns;

verus! {

/// A data accessor confined to one sandbox root on the local filesystem.
/// The root is fixed at construction and never changes.
pub struct Local {
    root: Vec<u8>,
}

impl Local {
    /// The bytes of the configured sandbox root.
    pub closed spec fn root_bytes(&self) -> Seq<u8> {
        self.root@
    }

    /// A local accessor sandboxed to `root`.
    pub fn new(root: &str) -> (r: Local)
        ensures
            r.root_bytes() == root.spec_bytes(),
    {
        Local { root: root.as_bytes_vec() }
    }

    /// The sandbox guard. Resolves a caller-supplied path against the root:
    /// joins, normalizes `.` and `..`, and hands back the absolute byte path
    /// exactly when the resolution stays at or below the root. A resolution
    /// that would escape is rejected as a security violation carrying the
    /// offending input; a root that is not an absolute path is rejected as a
    /// configuration error.
    pub fn resolve(&self, path: &str) -> (r: Result<Vec<u8>, Error>)
        ensures
            match r {
                Ok(p) => is_absolute(self.root_bytes()) && sandbox_allows(
                    self.root_bytes(),
                    path.spec_bytes(),
                ) && p@ == abs_path_of(resolved_components(self.root_bytes(), path.spec_bytes())),
                Err(e) => if e.spec_kind() == ErrorKind::ConfigurationError {
                    !is_absolute(self.root_bytes())
                } else {
                    &&& e.spec_kind() == ErrorKind::SecurityViolation
                    &&& is_absolute(self.root_bytes())
                    &&& !sandbox_allows(self.root_bytes(), path.spec_bytes())
                    &&& e.spec_detail() == path@
                },
            },
    {
        if self.root.len() == 0 || self.root[0] != SEP {
            return Err(
                Error::new(
                    ErrorKind::ConfigurationError,
                    "sandbox root is not an absolute path".to_owned(),
                ),
            );
        }
        let req = path.as_bytes_vec();
        let root_cs = split_components(&self.root);
        let empty_base: Vec<Vec<u8>> = Vec::new();
        proof {
            assert(seq_views(empty_base@) =~= Seq::<Seq<u8>>::empty());
        }
        let root_norm = normalize_onto_exec(empty_base, &root_cs);
        let req_cs = split_components(&req);
        let resolved = if req.len() > 0 && req[0] == SEP {
            let empty_abs: Vec<Vec<u8>> = Vec::new();
            proof {
                assert(seq_views(empty_abs@) =~= Seq::<Seq<u8>>::empty());
            }
            normalize_onto_exec(empty_abs, &req_cs)
        } else {
            let empty_rel: Vec<Vec<u8>> = Vec::new();
            proof {
                assert(seq_views(empty_rel@) =~= Seq::<Seq<u8>>::empty());
            }
            let base = normalize_onto_exec(empty_rel, &root_cs);
            normalize_onto_exec(base, &req_cs)
        };
        if component_prefix(&root_norm, &resolved) {
            Ok(join_components(&resolved))
        } else {
            Err(Error::new(ErrorKind::SecurityViolation, path.to_owned()))
        }
    }
}

} // verus!
