//! Plain values handed back by the engine: index sources and providers.
use std::collections::hash_map::DefaultHasher;
use std::hash::{Hash, Hasher};
use vstd::prelude::*;
use vstd::std_specs::hash::DefaultHasherAdditionalSpecFns;
use vstd::string::StringExecFns;

verus! {

/// A source of package indexes: where it is fetched from, and the file it is
/// kept in.
pub struct SourceFile {
    pub uri: String,
    pub filename: String,
}

impl SourceFile {
    /// The source as `Source< Uri: <uri>, Filename: <filename>>`.
    pub fn describe(&self) -> (r: String)
        ensures
            r@ == "Source< Uri: "@ + self.uri@ + ", Filename: "@ + self.filename@ + ">"@,
    {
        let mut out = String::new();
        out.append("Source< Uri: ");
        out.append(self.uri.as_str());
        out.append(", Filename: ");
        out.append(self.filename.as_str());
        out.append(">");
        out
    }
}

/// A package that provides a virtual package: its name, and the id of the
/// package as the engine numbers it.
pub struct Provider {
    pub name: String,
    pub package_id: i32,
}

/// The writes through which a string feeds a hasher.
pub uninterp spec fn str_hash_writes(s: Seq<char>) -> Seq<Seq<u8>>;

/// Relies on `<str as Hash>::hash`: what it feeds the hasher depends on the
/// string alone.
#[verifier::external_body]
fn hash_str_into(s: &str, hasher: &mut DefaultHasher)
    ensures
        final(hasher)@ == old(hasher)@ + str_hash_writes(s@),
{
    s.hash(hasher)
}

impl Provider {
    /// A hash of the provider's name, stable within a build, for use as a key.
    pub fn hash(&self) -> (r: u64)
        ensures
            r == DefaultHasher::spec_finish(str_hash_writes(self.name@)),
    {
        let mut hasher = DefaultHasher::new();
        hash_str_into(self.name.as_str(), &mut hasher);
        hasher.finish()
    }
}

} // verus!
