//! Which store a title comes from, and whether its id names that title on
//! every machine.

use vstd::prelude::*;
use crate::text::same_text;

verus! {

/// The store a title comes from; its id is an opaque string in that store's
/// own format.
#[derive(Debug, Clone, Copy, PartialEq, Eq, Hash, Structural)]
pub enum Store {
    Steam,
    Epic,
    Gog,
    /// Microsoft Store / Game Pass on PC.
    Gdk,
    /// No store claims this title: its id names it on one machine only, so
    /// elsewhere it is named by its executable.
    Local,
}

impl Store {
    /// Every store, once: what [`Store::parse`] can answer.
    pub const ALL: [Store; 5] = [Store::Steam, Store::Epic, Store::Gog, Store::Gdk, Store::Local];

    /// The one spelling of a store.
    pub open spec fn spelling(self) -> Seq<char> {
        match self {
            Store::Steam => "steam"@,
            Store::Epic => "epic"@,
            Store::Gog => "gog"@,
            Store::Gdk => "gdk"@,
            Store::Local => "local"@,
        }
    }

    /// The store a name spells, if it spells one.
    pub open spec fn spelled_by(name: Seq<char>) -> Option<Store> {
        if name == "steam"@ {
            Some(Store::Steam)
        } else if name == "epic"@ {
            Some(Store::Epic)
        } else if name == "gog"@ {
            Some(Store::Gog)
        } else if name == "gdk"@ {
            Some(Store::Gdk)
        } else if name == "local"@ {
            Some(Store::Local)
        } else {
            None
        }
    }

    pub fn as_str(self) -> (s: &'static str)
        ensures
            s@ == self.spelling(),
    {
        match self {
            Store::Steam => "steam",
            Store::Epic => "epic",
            Store::Gog => "gog",
            Store::Gdk => "gdk",
            Store::Local => "local",
        }
    }

    /// The store a name spells, exactly as [`Store::as_str`] writes it.
    pub fn parse(name: &str) -> (r: Option<Store>)
        ensures
            r == Store::spelled_by(name@),
    {
        if same_text(name, "steam") {
            Some(Store::Steam)
        } else if same_text(name, "epic") {
            Some(Store::Epic)
        } else if same_text(name, "gog") {
            Some(Store::Gog)
        } else if same_text(name, "gdk") {
            Some(Store::Gdk)
        } else if same_text(name, "local") {
            Some(Store::Local)
        } else {
            None
        }
    }

    /// True when the id means the same title on every machine, so a report or
    /// a catalogue entry can name the title by it. A [`Store::Local`] id does
    /// not.
    pub fn is_portable(self) -> (r: bool)
        ensures
            r == (self != Store::Local),
    {
        !matches!(self, Store::Local)
    }
}

/// Every store's spelling is read back as that store, and a name is read as a
/// store only when it is that store's spelling.
pub proof fn lemma_store_spelling_roundtrip(st: Store, name: Seq<char>)
    ensures
        Store::spelled_by(st.spelling()) == Some(st),
        Store::spelled_by(name) == Some(st) ==> name == st.spelling(),
{
    reveal_strlit("steam");
    reveal_strlit("epic");
    reveal_strlit("gog");
    reveal_strlit("gdk");
    reveal_strlit("local");
    assert("steam"@[0] != "local"@[0]);
    assert("gog"@[1] != "gdk"@[1]);
    assert("steam"@.len() != "epic"@.len() && "steam"@.len() != "gog"@.len());
    assert("epic"@.len() != "gdk"@.len() && "epic"@.len() != "local"@.len());
    assert("gog"@.len() != "local"@.len() && "gdk"@.len() != "local"@.len());
}

} // verus!
