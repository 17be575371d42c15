//! The package dependency model: an external package required by name, with
//! a version constraint, an optionality flag, a build/development classifier
//! and the feature-activation overrides a qualified feature edge may set.

use vstd::prelude::*;

verus! {

#[derive(Clone, Copy, PartialEq, Eq, Structural)]
pub enum DepKind {
    /// An ordinary dependency of the shipped package.
    Normal,
    /// Needed only to build; packaged the same as a normal dependency.
    Build,
    /// Needed only for testing; never part of a shipped package.
    Development,
}

pub struct PackageDependency {
    pub name: Vec<u8>,
    /// The version constraint, kept as opaque text for downstream rendering.
    pub req: Vec<u8>,
    pub optional: bool,
    pub kind: DepKind,
    pub default_features: bool,
    /// Sub-features of the dependency to activate.
    pub features: Vec<Vec<u8>>,
}

/// The mathematical value of a `PackageDependency`.
#[verifier::ext_equal]
pub struct DepView {
    pub name: Seq<u8>,
    pub req: Seq<u8>,
    pub optional: bool,
    pub kind: DepKind,
    pub default_features: bool,
    pub features: Seq<Seq<u8>>,
}

impl View for PackageDependency {
    type V = DepView;

    open spec fn view(&self) -> DepView {
        DepView {
            name: self.name@,
            req: self.req@,
            optional: self.optional,
            kind: self.kind,
            default_features: self.default_features,
            features: self.features.deep_view(),
        }
    }
}

impl DeepView for PackageDependency {
    type V = DepView;

    open spec fn deep_view(&self) -> DepView {
        self.view()
    }
}

impl PackageDependency {
    /// A fresh copy with the same value.
    pub fn dup(&self) -> (r: PackageDependency)
        ensures
            r@ == self@,
    {
        let r = PackageDependency {
            name: crate::bytes::dup_bytes(&self.name),
            req: crate::bytes::dup_bytes(&self.req),
            optional: self.optional,
            kind: self.kind,
            default_features: self.default_features,
            features: crate::bytes::dup_byte_list(&self.features),
        };
        proof {
            assert(r@ =~= self@);
        }
        r
    }

    /// The derived dependency a qualified feature edge produces: default
    /// features off, exactly the named sub-feature requested.
    pub fn with_sub_feature(&self, sub: &Vec<u8>) -> (r: PackageDependency)
        ensures
            r@ == sub_feature_view(self@, sub@),
    {
        let mut features: Vec<Vec<u8>> = Vec::new();
        features.push(crate::bytes::dup_bytes(sub));
        let r = PackageDependency {
            name: crate::bytes::dup_bytes(&self.name),
            req: crate::bytes::dup_bytes(&self.req),
            optional: self.optional,
            kind: self.kind,
            default_features: false,
            features,
        };
        proof {
            assert(r@.features =~~= seq![sub@]);
            assert(r@ =~~= sub_feature_view(self@, sub@));
        }
        r
    }
}

/// A fresh copy of a list of dependencies.
pub fn dup_dep_list(v: &Vec<PackageDependency>) -> (r: Vec<PackageDependency>)
    ensures
        r.deep_view() == v.deep_view(),
{
    let mut r: Vec<PackageDependency> = Vec::new();
    let mut i: usize = 0;
    while i < v.len()
        invariant
            i <= v.len(),
            r.deep_view() == v.deep_view().take(i as int),
        decreases v.len() - i,
    {
        let ghost prev = r.deep_view();
        r.push(v[i].dup());
        proof {
            assert(r.deep_view() =~= prev.push(v.deep_view()[i as int]));
            assert(prev.push(v.deep_view()[i as int]) =~= v.deep_view().take(i + 1 as int));
        }
        i += 1;
    }
    proof {
        assert(v.deep_view().take(v.len() as int) =~= v.deep_view());
    }
    r
}

/// The value of a dependency after a qualified feature edge overrides its
/// feature activation.
pub open spec fn sub_feature_view(d: DepView, sub: Seq<u8>) -> DepView {
    DepView { default_features: false, features: seq![sub], ..d }
}

} // verus!
