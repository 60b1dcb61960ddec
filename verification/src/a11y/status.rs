//! Common chrome status announcements (English).

use vstd::prelude::*;
use super::live;

verus! {

/// Well-known chrome status kinds.
#[derive(Debug, Clone, Copy, PartialEq, Eq, Structural)]
pub enum Kind {
    /// Document or form saved.
    Saved,
    /// Background sync in progress.
    Syncing,
    /// No network / offline mode.
    Offline,
    /// Generic error surface.
    Error,
    /// Ready / idle.
    Ready,
}

/// The English phrase for each kind.
pub open spec fn kind_phrase(k: Kind) -> Seq<char> {
    match k {
        Kind::Saved => "Saved"@,
        Kind::Syncing => "Syncing"@,
        Kind::Offline => "Offline"@,
        Kind::Error => "Error"@,
        Kind::Ready => "Ready"@,
    }
}

/// Each kind is announced by its own English name, spelled out letter by
/// letter (`Saved`, `Syncing`, `Offline`, `Error`, `Ready`), and no two
/// kinds share a phrase: a screen reader never hears one status for
/// another.
pub proof fn phrases_name_their_kinds(k: Kind, j: Kind)
    ensures
        kind_phrase(k) == match k {
            Kind::Saved => seq!['S', 'a', 'v', 'e', 'd'],
            Kind::Syncing => seq!['S', 'y', 'n', 'c', 'i', 'n', 'g'],
            Kind::Offline => seq!['O', 'f', 'f', 'l', 'i', 'n', 'e'],
            Kind::Error => seq!['E', 'r', 'r', 'o', 'r'],
            Kind::Ready => seq!['R', 'e', 'a', 'd', 'y'],
        },
        kind_phrase(k) == kind_phrase(j) ==> k == j,
{
    reveal_strlit("Saved");
    reveal_strlit("Syncing");
    reveal_strlit("Offline");
    reveal_strlit("Error");
    reveal_strlit("Ready");
    assert("Saved"@ =~= seq!['S', 'a', 'v', 'e', 'd']);
    assert("Syncing"@ =~= seq!['S', 'y', 'n', 'c', 'i', 'n', 'g']);
    assert("Offline"@ =~= seq!['O', 'f', 'f', 'l', 'i', 'n', 'e']);
    assert("Error"@ =~= seq!['E', 'r', 'r', 'o', 'r']);
    assert("Ready"@ =~= seq!['R', 'e', 'a', 'd', 'y']);
    if kind_phrase(k) == kind_phrase(j) && k != j {
        assert(kind_phrase(k)[0] == kind_phrase(j)[0]);
        assert(kind_phrase(k).len() == kind_phrase(j).len());
        assert(kind_phrase(k)[1] == kind_phrase(j)[1]);
    }
}

impl Kind {
    /// Short English phrase for this kind.
    pub fn as_str(self) -> (r: &'static str)
        ensures
            r@ == kind_phrase(self),
    {
        match self {
            Kind::Saved => "Saved",
            Kind::Syncing => "Syncing",
            Kind::Offline => "Offline",
            Kind::Error => "Error",
            Kind::Ready => "Ready",
        }
    }
}

/// Announce a status kind in a polite live region.
pub fn announce(kind: Kind) -> (r: String)
    ensures
        r@ == live::region_spec("polite"@, kind_phrase(kind)),
{
    live::polite(kind.as_str())
}

/// Announce an error assertively.
pub fn announce_error(detail: &str) -> (r: String)
    ensures
        r@ == live::region_spec("assertive"@, detail@),
{
    live::assertive(detail)
}

} // verus!
