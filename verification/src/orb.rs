//! The ORB object: the initial references table of CORBA 3.4 §8.5.2, the
//! two conversions of §8.2.2, and the configuration a deployment supplies.
//!
//! A fresh [`Orb`] resolves nothing at all and every name resolves because
//! something registered it. `resolve_initial_reference` never answers a nil
//! reference: a name with no entry is refused with [`InvalidName`], naming
//! the key asked for.

pub mod config;

use vstd::prelude::*;

use crate::chars::{chars_of, slices_eq, string_of, strip_ci, text_is};
use crate::giop::Error;
use crate::ior::{ior_result_is, ior_text_spec, parse_ior_text, Ior, IorView};
use crate::orb::config::{pairs_view, texts_view};
use crate::naming::{
    addressed_ior, addressed_view, names_view, stringify, stringify_name, url_spec, NameView,
    ObjectUrl, UrlError, UrlErrorKind, UrlView,
};
use crate::orb::config::{ConfigError, ConfigView, OrbConfig};
use crate::text::trim_chars;

verus! {

// ─────────────────────────────────────────────────────────────────────────────
// Reserved names
// ─────────────────────────────────────────────────────────────────────────────

/// The `ObjectId`s CORBA 3.4 §8.5.2 reserves, in the order it lists them.
/// The list gates nothing: any id may be registered. It tells a caller who
/// asked for a reserved name apart from one who invented a name.
pub open spec fn reserved_ids() -> Seq<Seq<char>> {
    seq![
        "RootPOA"@,
        "POACurrent"@,
        "InterfaceRepository"@,
        "NameService"@,
        "TradingService"@,
        "SecurityCurrent"@,
        "TransactionCurrent"@,
        "DynAnyFactory"@,
        "ORBPolicyManager"@,
        "PolicyCurrent"@,
        "NotificationService"@,
        "TypedNotificationService"@,
        "CodecFactory"@,
        "PICurrent"@,
        "ComponentHomeFinder"@,
        "PSS"@,
    ]
}

/// The reserved `ObjectId`s as exec text.
pub fn reserved_object_ids() -> (r: Vec<&'static str>)
    ensures
        r@.len() == reserved_ids().len(),
        forall|i: int| 0 <= i < r@.len() ==> (#[trigger] r@[i])@ == reserved_ids()[i],
{
    let v: Vec<&'static str> = vec![
        "RootPOA",
        "POACurrent",
        "InterfaceRepository",
        "NameService",
        "TradingService",
        "SecurityCurrent",
        "TransactionCurrent",
        "DynAnyFactory",
        "ORBPolicyManager",
        "PolicyCurrent",
        "NotificationService",
        "TypedNotificationService",
        "CodecFactory",
        "PICurrent",
        "ComponentHomeFinder",
        "PSS",
    ];
    v
}

/// Whether `id` is one of the `ObjectId`s CORBA 3.4 §8.5.2 reserves.
/// Case-sensitive: the specification gives the spellings exactly.
pub fn is_reserved_object_id(id: &str) -> (r: bool)
    ensures
        r == reserved_ids().contains(id@),
{
    let ids = reserved_object_ids();
    let cs = chars_of(id);
    let mut i: usize = 0;
    while i < ids.len()
        invariant
            i <= ids@.len(),
            ids@.len() == reserved_ids().len(),
            cs@ == id@,
            forall|k: int| 0 <= k < ids@.len() ==> (#[trigger] ids@[k])@ == reserved_ids()[k],
            forall|k: int| 0 <= k < i ==> reserved_ids()[k] != id@,
        decreases ids.len() - i,
    {
        if text_is(cs.as_slice(), ids[i]) {
            assert(reserved_ids()[i as int] == id@);
            return true;
        }
        i = i + 1;
    }
    false
}


// ─────────────────────────────────────────────────────────────────────────────
// The order of names
// ─────────────────────────────────────────────────────────────────────────────

/// The order `String`'s `Ord` gives: lexicographic by code point, which is
/// the order of the UTF-8 octets.
pub open spec fn text_lt(a: Seq<char>, b: Seq<char>) -> bool
    decreases a.len(),
{
    if a.len() == 0 {
        b.len() > 0
    } else if b.len() == 0 {
        false
    } else if a[0] != b[0] {
        (a[0] as u32) < (b[0] as u32)
    } else {
        text_lt(a.drop_first(), b.drop_first())
    }
}

pub proof fn lemma_text_lt_irreflexive(a: Seq<char>)
    ensures
        !text_lt(a, a),
    decreases a.len(),
{
    if a.len() > 0 {
        lemma_text_lt_irreflexive(a.drop_first());
    }
}

pub proof fn lemma_text_lt_asymmetric(a: Seq<char>, b: Seq<char>)
    ensures
        text_lt(a, b) ==> !text_lt(b, a),
    decreases a.len(),
{
    if a.len() > 0 && b.len() > 0 && a[0] == b[0] {
        lemma_text_lt_asymmetric(a.drop_first(), b.drop_first());
    }
}

pub proof fn lemma_text_lt_total(a: Seq<char>, b: Seq<char>)
    ensures
        a != b ==> text_lt(a, b) || text_lt(b, a),
    decreases a.len(),
{
    if a.len() > 0 && b.len() > 0 && a[0] == b[0] {
        lemma_text_lt_total(a.drop_first(), b.drop_first());
        if a.drop_first() == b.drop_first() {
            assert(a =~= seq![a[0]] + a.drop_first());
            assert(b =~= seq![b[0]] + b.drop_first());
        }
    } else if a.len() == 0 && b.len() == 0 {
        assert(a =~= b);
    } else if a.len() > 0 && b.len() > 0 {
        if (a[0] as u32) == (b[0] as u32) {
            vstd::utf8::char_u32_cast(a[0], a[0] as u32);
            vstd::utf8::char_u32_cast(b[0], b[0] as u32);
        }
    }
}

pub proof fn lemma_text_lt_transitive(a: Seq<char>, b: Seq<char>, c: Seq<char>)
    requires
        text_lt(a, b),
        text_lt(b, c),
    ensures
        text_lt(a, c),
    decreases a.len(),
{
    if a.len() > 0 && b.len() > 0 && c.len() > 0 && a[0] == b[0] && b[0] == c[0] {
        lemma_text_lt_transitive(a.drop_first(), b.drop_first(), c.drop_first());
    }
}

/// Whether `a` sorts before `b`.
pub fn text_less(a: &[char], b: &[char]) -> (r: bool)
    ensures
        r == text_lt(a@, b@),
{
    let mut i: usize = 0;
    assert(a@.skip(0) =~= a@);
    assert(b@.skip(0) =~= b@);
    while i < a.len() && i < b.len()
        invariant
            i <= a@.len(),
            i <= b@.len(),
            text_lt(a@, b@) == text_lt(a@.skip(i as int), b@.skip(i as int)),
        decreases a.len() - i,
    {
        let x = a[i];
        let y = b[i];
        assert(a@.skip(i as int)[0] == x);
        assert(b@.skip(i as int)[0] == y);
        if x != y {
            return (x as u32) < (y as u32);
        }
        assert(a@.skip(i as int).drop_first() =~= a@.skip(i + 1));
        assert(b@.skip(i as int).drop_first() =~= b@.skip(i + 1));
        i = i + 1;
    }
    i == a.len() && i < b.len()
}


// ─────────────────────────────────────────────────────────────────────────────
// Refusals
// ─────────────────────────────────────────────────────────────────────────────

/// `CORBA::ORB::InvalidName` — the one exception §8.5.2 and §16.10.1 raise.
/// Each variant carries the `ObjectId` it is about.
#[derive(Debug, Clone, PartialEq, Eq)]
pub enum InvalidName {
    /// No entry for the `ObjectId` asked for (§8.5.2).
    NotRegistered {
        /// The `ObjectId` that was asked for.
        key: String,
        /// Whether §8.5.2 reserves that spelling.
        reserved: bool,
        /// What this ORB does answer for, in order.
        known: Vec<String>,
    },
    /// Registration under the empty `ObjectId` (§16.10.1).
    EmptyId,
    /// Registration under an `ObjectId` already taken (§16.10.1).
    AlreadyRegistered {
        /// The `ObjectId` that was already taken.
        key: String,
    },
}

/// A refusal as values.
pub enum InvalidNameView {
    NotRegistered { key: Seq<char>, reserved: bool, known: Seq<Seq<char>> },
    EmptyId,
    AlreadyRegistered { key: Seq<char> },
}

impl View for InvalidName {
    type V = InvalidNameView;

    open spec fn view(&self) -> InvalidNameView {
        match self {
            InvalidName::NotRegistered { key, reserved, known } => InvalidNameView::NotRegistered {
                key: key@,
                reserved: *reserved,
                known: texts_view(known@),
            },
            InvalidName::EmptyId => InvalidNameView::EmptyId,
            InvalidName::AlreadyRegistered { key } => InvalidNameView::AlreadyRegistered {
                key: key@,
            },
        }
    }
}

/// Why [`Orb::string_to_object`] could not produce a reference. Every
/// variant carries the (trimmed) string it was given.
#[derive(Debug)]
pub enum StringToObjectError {
    /// Neither `IOR:` nor any object URL scheme.
    NotAReferenceString {
        /// The string, trimmed.
        text: String,
    },
    /// An `IOR:` prefix over a body that is not a marshalled reference.
    Ior {
        /// The string, trimmed.
        text: String,
        /// What the `IOR:<hex>` reader made of it.
        cause: Error,
    },
    /// A recognised URL scheme, malformed after it.
    Url {
        /// The string, trimmed.
        text: String,
        /// What the URL parser made of it.
        cause: UrlError,
    },
    /// A well-formed `corbaloc:rir:<ObjectId>` this ORB has no entry for.
    Name {
        /// The string, trimmed.
        text: String,
        /// The refusal, which names the `ObjectId`.
        cause: InvalidName,
    },
    /// A `corbaname:` URL carrying a name: the object it denotes can only be
    /// had by calling `resolve` on the naming service the URL addresses.
    NeedsANamingCall {
        /// The string, trimmed.
        text: String,
        /// The stringified name that would have to be resolved.
        name: String,
    },
}

impl StringToObjectError {
    /// The string the failure names.
    pub open spec fn text_view(&self) -> Seq<char> {
        match self {
            StringToObjectError::NotAReferenceString { text } => text@,
            StringToObjectError::Ior { text, .. } => text@,
            StringToObjectError::Url { text, .. } => text@,
            StringToObjectError::Name { text, .. } => text@,
            StringToObjectError::NeedsANamingCall { text, .. } => text@,
        }
    }

    /// The string that was handed to [`Orb::string_to_object`], trimmed.
    pub fn text(&self) -> (r: &str)
        ensures
            r@ == self.text_view(),
    {
        match self {
            StringToObjectError::NotAReferenceString { text } => text.as_str(),
            StringToObjectError::Ior { text, .. } => text.as_str(),
            StringToObjectError::Url { text, .. } => text.as_str(),
            StringToObjectError::Name { text, .. } => text.as_str(),
            StringToObjectError::NeedsANamingCall { text, .. } => text.as_str(),
        }
    }
}

// ─────────────────────────────────────────────────────────────────────────────
// The table
// ─────────────────────────────────────────────────────────────────────────────

/// An entry list as its names.
pub open spec fn keys_of(t: Seq<(Seq<char>, IorView)>) -> Seq<Seq<char>> {
    t.map_values(|e: (Seq<char>, IorView)| e.0)
}

/// Names in strictly increasing order: the table's invariant, which is
/// also why listing it is stable.
pub open spec fn sorted(t: Seq<(Seq<char>, IorView)>) -> bool {
    forall|i: int, j: int| 0 <= i < j < t.len() ==> text_lt(#[trigger] t[i].0, #[trigger] t[j].0)
}

/// The reference registered under `k`.
pub open spec fn lookup(t: Seq<(Seq<char>, IorView)>, k: Seq<char>) -> Option<IorView>
    decreases t.len(),
{
    if t.len() == 0 {
        None
    } else if t[0].0 == k {
        Some(t[0].1)
    } else {
        lookup(t.drop_first(), k)
    }
}

/// Where `k` goes: before the first name it sorts before.
pub open spec fn insert_pos(t: Seq<(Seq<char>, IorView)>, k: Seq<char>) -> int
    decreases t.len(),
{
    if t.len() == 0 {
        0
    } else if text_lt(k, t[0].0) {
        0
    } else {
        1 + insert_pos(t.drop_first(), k)
    }
}

/// Where `k` is, if anywhere.
pub open spec fn position(t: Seq<(Seq<char>, IorView)>, k: Seq<char>) -> int
    decreases t.len(),
{
    if t.len() == 0 {
        -1
    } else if t[0].0 == k {
        0
    } else if position(t.drop_first(), k) < 0 {
        -1
    } else {
        1 + position(t.drop_first(), k)
    }
}

/// The ORB's initial references table and configuration.
#[derive(Debug, Clone, Default)]
pub struct Orb {
    initial: Vec<(String, Ior)>,
    config: OrbConfig,
    stopped: bool,
}

/// An ORB as values.
pub struct OrbView {
    pub table: Seq<(Seq<char>, IorView)>,
    pub config: ConfigView,
    pub stopped: bool,
}

pub open spec fn entries_view(v: Seq<(String, Ior)>) -> Seq<(Seq<char>, IorView)> {
    v.map_values(|e: (String, Ior)| (e.0@, e.1@))
}

impl View for Orb {
    type V = OrbView;

    closed spec fn view(&self) -> OrbView {
        OrbView { table: entries_view(self.initial@), config: self.config@, stopped: self.stopped }
    }
}

proof fn lemma_lookup_index(t: Seq<(Seq<char>, IorView)>, k: Seq<char>)
    ensures
        lookup(t, k) is Some <==> position(t, k) >= 0,
        position(t, k) >= 0 ==> position(t, k) < t.len() && t[position(t, k)].0 == k && lookup(t, k)
            == Some(t[position(t, k)].1),
        position(t, k) < 0 ==> forall|i: int| 0 <= i < t.len() ==> t[i].0 != k,
    decreases t.len(),
{
    if t.len() > 0 {
        lemma_lookup_index(t.drop_first(), k);
        if t[0].0 != k && position(t.drop_first(), k) < 0 {
            assert forall|i: int| 0 <= i < t.len() implies t[i].0 != k by {
                if i > 0 {
                    assert(t[i] == t.drop_first()[i - 1]);
                }
            }
        }
    }
}

proof fn lemma_insert_pos(t: Seq<(Seq<char>, IorView)>, k: Seq<char>)
    requires
        sorted(t),
        forall|i: int| 0 <= i < t.len() ==> t[i].0 != k,
    ensures
        0 <= insert_pos(t, k) <= t.len(),
        forall|i: int| 0 <= i < insert_pos(t, k) ==> text_lt(t[i].0, k),
        forall|i: int| insert_pos(t, k) <= i < t.len() ==> text_lt(k, t[i].0),
    decreases t.len(),
{
    if t.len() > 0 {
        let rest = t.drop_first();
        assert(sorted(rest)) by {
            assert forall|i: int, j: int| 0 <= i < j < rest.len() implies text_lt(
                #[trigger] rest[i].0,
                #[trigger] rest[j].0,
            ) by {
                assert(rest[i] == t[i + 1] && rest[j] == t[j + 1]);
            }
        }
        assert forall|i: int| 0 <= i < rest.len() implies rest[i].0 != k by {
            assert(rest[i] == t[i + 1]);
        }
        lemma_insert_pos(rest, k);
        lemma_text_lt_total(k, t[0].0);
        if text_lt(k, t[0].0) {
            assert forall|i: int| 0 <= i < t.len() implies text_lt(k, t[i].0) by {
                if i > 0 {
                    lemma_text_lt_transitive(k, t[0].0, t[i].0);
                }
            }
        } else {
            assert forall|i: int| 1 <= i < insert_pos(t, k) implies text_lt(t[i].0, k) by {
                assert(t[i] == rest[i - 1]);
            }
            assert forall|i: int| insert_pos(t, k) <= i < t.len() implies text_lt(k, t[i].0) by {
                assert(t[i] == rest[i - 1]);
            }
        }
    }
}

/// Inserting a new name where `insert_pos` puts it keeps the table sorted,
/// answers the new reference under the new name, and every other name as
/// before.
pub proof fn law_insert_sorted(t: Seq<(Seq<char>, IorView)>, k: Seq<char>, v: IorView)
    requires
        sorted(t),
        lookup(t, k) is None,
    ensures
        sorted(t.insert(insert_pos(t, k), (k, v))),
        lookup(t.insert(insert_pos(t, k), (k, v)), k) == Some(v),
        forall|q: Seq<char>| q != k ==> lookup(t.insert(insert_pos(t, k), (k, v)), q) == lookup(t, q),
{
    lemma_lookup_index(t, k);
    lemma_insert_pos(t, k);
    let p = insert_pos(t, k);
    let n = t.insert(p, (k, v));
    assert forall|i: int, j: int| 0 <= i < j < n.len() implies text_lt(
        #[trigger] n[i].0,
        #[trigger] n[j].0,
    ) by {
        if j < p {
        } else if j == p {
            assert(n[j].0 == k);
        } else if i < p {
            lemma_text_lt_transitive(n[i].0, k, n[j].0);
        } else if i == p {
            assert(n[j] == t[j - 1]);
        } else {
            assert(n[i] == t[i - 1] && n[j] == t[j - 1]);
        }
    }
    assert forall|q: Seq<char>| lookup(n, q) == (if q == k {
        Some(v)
    } else {
        lookup(t, q)
    }) by {
        lemma_lookup_unique(n, q);
        lemma_lookup_unique(t, q);
        if q == k {
            assert(n[p].0 == k);
        } else {
            lemma_lookup_index(t, q);
            lemma_lookup_index(n, q);
            if position(t, q) >= 0 {
                let i = position(t, q);
                let j = if i < p {
                    i
                } else {
                    i + 1
                };
                assert(n[j] == t[i]);
            }
            if position(n, q) >= 0 {
                let j = position(n, q);
                assert(j != p);
                let i = if j < p {
                    j
                } else {
                    j - 1
                };
                assert(n[j] == t[i]);
            }
        }
    }
}

/// In a sorted table a name sits at one index, and `lookup` answers what
/// is there.
proof fn lemma_lookup_unique(t: Seq<(Seq<char>, IorView)>, k: Seq<char>)
    requires
        sorted(t),
    ensures
        forall|i: int| 0 <= i < t.len() && t[i].0 == k ==> lookup(t, k) == Some(t[i].1),
{
    lemma_lookup_index(t, k);
    assert forall|i: int| 0 <= i < t.len() && t[i].0 == k implies lookup(t, k) == Some(t[i].1) by {
        let p = position(t, k);
        if p != i {
            if p < i {
                assert(text_lt(t[p].0, t[i].0));
            } else {
                assert(text_lt(t[i].0, t[p].0));
            }
            lemma_text_lt_irreflexive(k);
        }
    }
}


/// The table with `k` answering `v`: replaced where `k` is, inserted where
/// it sorts otherwise.
pub open spec fn put_entry(t: Seq<(Seq<char>, IorView)>, k: Seq<char>, v: IorView) -> Seq<(Seq<char>, IorView)> {
    if lookup(t, k) is Some {
        t.update(position(t, k), (k, v))
    } else {
        t.insert(insert_pos(t, k), (k, v))
    }
}

/// What `resolve_initial_reference` answers for `id`.
pub open spec fn resolve_spec(t: Seq<(Seq<char>, IorView)>, id: Seq<char>) -> Result<IorView, InvalidNameView> {
    match lookup(t, id) {
        Some(v) => Ok(v),
        None => Err(
            InvalidNameView::NotRegistered {
                key: id,
                reserved: reserved_ids().contains(id),
                known: keys_of(t),
            },
        ),
    }
}

/// What `resolve_url` answers: the table for `corbaloc:rir:`, the
/// addressed reference otherwise.
pub open spec fn resolve_url_spec(t: Seq<(Seq<char>, IorView)>, u: UrlView, type_id: Seq<char>) -> Result<
    IorView,
    InvalidNameView,
> {
    match u {
        UrlView::InitialReference(id) => resolve_spec(t, id),
        UrlView::Corbaloc { addresses, object_key } => Ok(
            addressed_view(addresses, object_key, type_id),
        ),
        UrlView::Corbaname { addresses, object_key, .. } => Ok(
            addressed_view(addresses, object_key, type_id),
        ),
    }
}

impl Orb {
    /// The table is sorted by name.
    pub open spec fn wf(&self) -> bool {
        sorted(self@.table)
    }

    /// An ORB that resolves nothing and changes no limit.
    pub fn new() -> (r: Orb)
        ensures
            r.wf(),
            r@.table.len() == 0,
            r@.config == crate::orb::config::empty_config(),
            !r@.stopped,
    {
        let r = Orb { initial: Vec::new(), config: OrbConfig::new(), stopped: false };
        assert(r@.table =~= Seq::<(Seq<char>, IorView)>::empty());
        r
    }

    /// The deployment's configuration.
    pub fn config(&self) -> (r: &OrbConfig)
        ensures
            r@ == self@.config,
    {
        &self.config
    }

    fn find(&self, id: &[char]) -> (r: Option<usize>)
        ensures
            match r {
                Some(i) => i < self@.table.len() && self@.table[i as int].0 == id@,
                None => forall|i: int| 0 <= i < self@.table.len() ==> self@.table[i].0 != id@,
            },
    {
        let mut i: usize = 0;
        while i < self.initial.len()
            invariant
                i <= self.initial@.len(),
                forall|j: int| 0 <= j < i ==> self@.table[j].0 != id@,
            decreases self.initial.len() - i,
        {
            let k = chars_of(self.initial[i].0.as_str());
            if slices_eq(k.as_slice(), id) {
                return Some(i);
            }
            i = i + 1;
        }
        None
    }

    /// `ORB::register_initial_reference` (CORBA 3.4 §16.10.1) — makes `id`
    /// resolve to `obj`. Refuses an empty `id` and one already registered;
    /// replacing an entry is said with [`Orb::unregister_initial_reference`].
    pub fn register_initial_reference(&mut self, id: &str, obj: Ior) -> (r: Result<(), InvalidName>)
        requires
            old(self).wf(),
        ensures
            final(self).wf(),
            final(self)@.config == old(self)@.config,
            final(self)@.stopped == old(self)@.stopped,
            id@.len() == 0 ==> r == Err::<(), InvalidName>(InvalidName::EmptyId) && final(self)@
                == old(self)@,
            id@.len() > 0 && lookup(old(self)@.table, id@) is Some ==> (r matches Err(
                InvalidName::AlreadyRegistered { key },
            ) && key@ == id@ && final(self)@ == old(self)@),
            id@.len() > 0 && lookup(old(self)@.table, id@) is None ==> r is Ok && final(self)@.table
                == old(self)@.table.insert(insert_pos(old(self)@.table, id@), (id@, obj@)),
    {
        let cs = chars_of(id);
        if cs.len() == 0 {
            return Err(InvalidName::EmptyId);
        }
        proof {
            lemma_lookup_index(self@.table, id@);
        }
        if let Some(_) = self.find(cs.as_slice()) {
            return Err(InvalidName::AlreadyRegistered { key: id.to_owned() });
        }
        self.insert_new(cs.as_slice(), id, obj);
        Ok(())
    }

    /// Inserts a name the table does not hold, where it sorts.
    fn insert_new(&mut self, cs: &[char], id: &str, obj: Ior)
        requires
            old(self).wf(),
            cs@ == id@,
            lookup(old(self)@.table, id@) is None,
        ensures
            final(self).wf(),
            final(self)@.config == old(self)@.config,
            final(self)@.stopped == old(self)@.stopped,
            final(self)@.table == old(self)@.table.insert(insert_pos(old(self)@.table, id@), (id@, obj@)),
    {
        proof {
            lemma_lookup_index(self@.table, id@);
        }
        proof {
            lemma_insert_pos(self@.table, id@);
            law_insert_sorted(self@.table, id@, obj@);
        }
        let mut p: usize = 0;
        assert(self@.table.skip(0) =~= self@.table);
        let mut found = false;
        while p < self.initial.len() && !found
            invariant
                p <= self.initial@.len(),
                sorted(self@.table),
                forall|i: int| 0 <= i < self@.table.len() ==> self@.table[i].0 != id@,
                insert_pos(self@.table, id@) == p + insert_pos(self@.table.skip(p as int), id@),
                found ==> p < self@.table.len() && text_lt(id@, self@.table[p as int].0),
                cs@ == id@,
            decreases self.initial.len() - p + (if found { 0int } else { 1int }),
        {
            let k = chars_of(self.initial[p].0.as_str());
            let ghost rest = self@.table.skip(p as int);
            assert(rest[0].0 == k@);
            if text_less(cs, k.as_slice()) {
                found = true;
            } else {
                assert(rest.drop_first() =~= self@.table.skip(p + 1));
                assert(insert_pos(rest, id@) == 1 + insert_pos(rest.drop_first(), id@));
                p = p + 1;
            }
        }
        assert(insert_pos(self@.table, id@) == p) by {
            let rest = self@.table.skip(p as int);
            if found {
                assert(rest[0] == self@.table[p as int]);
            } else {
                assert(rest.len() == 0);
            }
        }
        let ghost before = self@.table;
        let ghost v = obj@;
        self.initial.insert(p, (id.to_owned(), obj));
        assert(self@.table =~= before.insert(p as int, (id@, v)));
    }

    /// Makes `id` answer `obj`, replacing what it answered before.
    fn put(&mut self, id: &str, obj: Ior)
        requires
            old(self).wf(),
        ensures
            final(self).wf(),
            final(self)@.config == old(self)@.config,
            final(self)@.stopped == old(self)@.stopped,
            final(self)@.table == put_entry(old(self)@.table, id@, obj@),
    {
        let cs = chars_of(id);
        proof {
            lemma_lookup_index(self@.table, id@);
            lemma_lookup_unique(self@.table, id@);
        }
        match self.find(cs.as_slice()) {
            Some(i) => {
                let ghost before = self@.table;
                let ghost v = obj@;
                proof {
                    if position(before, id@) != i {
                        let p = position(before, id@);
                        if p < i {
                            assert(text_lt(before[p].0, before[i as int].0));
                        } else {
                            assert(text_lt(before[i as int].0, before[p].0));
                        }
                        lemma_text_lt_irreflexive(id@);
                    }
                }
                self.initial.set(i, (id.to_owned(), obj));
                assert(self@.table =~= before.update(i as int, (id@, v)));
                assert forall|a: int, b: int| 0 <= a < b < self@.table.len() implies text_lt(
                    #[trigger] self@.table[a].0,
                    #[trigger] self@.table[b].0,
                ) by {
                    assert(self@.table[a].0 == before[a].0);
                    assert(self@.table[b].0 == before[b].0);
                }
            },
            None => {
                self.insert_new(cs.as_slice(), id, obj);
            },
        }
    }

    /// Removes `id` from the table, answering what was registered under it.
    pub fn unregister_initial_reference(&mut self, id: &str) -> (r: Option<Ior>)
        requires
            old(self).wf(),
        ensures
            final(self).wf(),
            final(self)@.config == old(self)@.config,
            final(self)@.stopped == old(self)@.stopped,
            match lookup(old(self)@.table, id@) {
                Some(v) => r matches Some(x) && x@ == v && final(self)@.table == old(self)@.table.remove(
                    position(old(self)@.table, id@),
                ),
                None => r is None && final(self)@ == old(self)@,
            },
    {
        let cs = chars_of(id);
        proof {
            lemma_lookup_index(self@.table, id@);
            lemma_lookup_unique(self@.table, id@);
        }
        match self.find(cs.as_slice()) {
            None => None,
            Some(i) => {
                let ghost before = self@.table;
                let (_, ior) = self.initial.remove(i);
                assert(self@.table =~= before.remove(i as int));
                proof {
                    assert forall|a: int, b: int| 0 <= a < b < self@.table.len() implies text_lt(
                        #[trigger] self@.table[a].0,
                        #[trigger] self@.table[b].0,
                    ) by {
                        let a0 = if a < i {
                            a
                        } else {
                            a + 1
                        };
                        let b0 = if b < i {
                            b
                        } else {
                            b + 1
                        };
                        assert(self@.table[a] == before[a0] && self@.table[b] == before[b0]);
                    }
                    if position(before, id@) != i {
                        let p = position(before, id@);
                        if p < i {
                            assert(text_lt(before[p].0, before[i as int].0));
                        } else {
                            assert(text_lt(before[i as int].0, before[p].0));
                        }
                        lemma_text_lt_irreflexive(id@);
                    }
                }
                Some(ior)
            },
        }
    }

    /// `ORB::resolve_initial_references` (CORBA 3.4 §8.5.2) — the reference
    /// registered under `id`, or [`InvalidName::NotRegistered`] naming `id`,
    /// whether §8.5.2 reserves it, and what this ORB does answer for.
    pub fn resolve_initial_reference(&self, id: &str) -> (r: Result<Ior, InvalidName>)
        requires
            self.wf(),
        ensures
            match resolve_spec(self@.table, id@) {
                Ok(v) => r matches Ok(x) && x@ == v,
                Err(e) => r matches Err(x) && x@ == e,
            },
    {
        let cs = chars_of(id);
        proof {
            lemma_lookup_index(self@.table, id@);
            lemma_lookup_unique(self@.table, id@);
        }
        match self.find(cs.as_slice()) {
            Some(i) => Ok(self.initial[i].1.duplicate()),
            None => Err(
                InvalidName::NotRegistered {
                    key: id.to_owned(),
                    reserved: is_reserved_object_id(id),
                    known: self.list_initial_services(),
                },
            ),
        }
    }

    /// `ORB::list_initial_services` (CORBA 3.4 §8.5.2) — every `ObjectId`
    /// this ORB will answer for, in sorted order.
    pub fn list_initial_services(&self) -> (r: Vec<String>)
        ensures
            texts_view(r@) == keys_of(self@.table),
    {
        let mut out: Vec<String> = Vec::new();
        let mut i: usize = 0;
        while i < self.initial.len()
            invariant
                i <= self.initial@.len(),
                texts_view(out@) == keys_of(self@.table).take(i as int),
            decreases self.initial.len() - i,
        {
            let ghost before = texts_view(out@);
            let k = self.initial[i].0.clone();
            out.push(k);
            assert(texts_view(out@) =~= before.push(k@));
            assert(keys_of(self@.table).take(i + 1) =~= keys_of(self@.table).take(i as int).push(k@));
            i = i + 1;
        }
        assert(keys_of(self@.table).take(self@.table.len() as int) =~= keys_of(self@.table));
        out
    }

    /// Turns any parsed object URL into a reference: `corbaloc:rir:` from
    /// the table, the addressed forms by the same construction as
    /// [`ObjectUrl::to_ior`], stamped with `type_id`.
    pub fn resolve_url(&self, url: &ObjectUrl, type_id: &str) -> (r: Result<Ior, InvalidName>)
        requires
            self.wf(),
        ensures
            match resolve_url_spec(self@.table, url@, type_id@) {
                Ok(v) => r matches Ok(x) && x@ == v,
                Err(e) => r matches Err(x) && x@ == e,
            },
    {
        match url {
            ObjectUrl::InitialReference(id) => self.resolve_initial_reference(id.as_str()),
            ObjectUrl::Corbaloc { addresses, object_key } => Ok(
                addressed_ior(addresses.as_slice(), object_key.as_slice(), type_id),
            ),
            ObjectUrl::Corbaname { addresses, object_key, .. } => Ok(
                addressed_ior(addresses.as_slice(), object_key.as_slice(), type_id),
            ),
        }
    }
}


// ─────────────────────────────────────────────────────────────────────────────
// The two conversions
// ─────────────────────────────────────────────────────────────────────────────

pub open spec fn ior_colon() -> Seq<char> {
    seq!['I', 'O', 'R', ':']
}

/// The name a `corbaname:` URL carries, when it carries one.
pub open spec fn named_corbaname(u: UrlView) -> Option<Seq<NameView>> {
    match u {
        UrlView::Corbaname { name, .. } => if name.len() > 0 {
            Some(name)
        } else {
            None
        },
        _ => None,
    }
}

/// A refusal of `string_to_object` as values, without its text.
pub enum S2OErrView {
    NotAReference,
    Ior(Error),
    Url(UrlErrorKind),
    Name(InvalidNameView),
    NeedsCall(Seq<char>),
}

/// What `string_to_object` makes of `s` against the table `t`: the text is
/// trimmed; an `IOR:` prefix in any case sends it to the `IOR:<hex>` reader;
/// a `corbaname:` URL carrying a name is refused (producing its object
/// takes a call); an unknown scheme is not a reference string; a malformed
/// URL keeps the URL parser's reason; otherwise the URL is resolved with an
/// empty type id.
#[verifier::opaque]
pub open spec fn s2o_spec(t: Seq<(Seq<char>, IorView)>, s: Seq<char>) -> Result<IorView, S2OErrView> {
    let text = trim_chars(s);
    if strip_ci(text, ior_colon()) is Some {
        match ior_text_spec(text) {
            Ok(v) => Ok(v),
            Err(e) => Err(S2OErrView::Ior(e)),
        }
    } else {
        match url_spec(text) {
            Err(UrlErrorKind::BadSchemeName) => Err(S2OErrView::NotAReference),
            Err(k) => Err(S2OErrView::Url(k)),
            Ok(u) => match named_corbaname(u) {
                Some(n) => Err(S2OErrView::NeedsCall(stringify(n))),
                None => match resolve_url_spec(t, u, Seq::empty()) {
                    Ok(v) => Ok(v),
                    Err(e) => Err(S2OErrView::Name(e)),
                },
            },
        }
    }
}

/// Whether an exec refusal is the one `v` describes, naming `text`.
pub open spec fn s2o_error_is(e: StringToObjectError, text: Seq<char>, v: S2OErrView) -> bool {
    &&& e.text_view() == text
    &&& match v {
        S2OErrView::NotAReference => e is NotAReferenceString,
        S2OErrView::Ior(x) => e matches StringToObjectError::Ior { cause, .. } && ior_result_is(
            Err(cause),
            Err(x),
        ),
        S2OErrView::Url(k) => e matches StringToObjectError::Url { cause, .. } && cause.kind() == k,
        S2OErrView::Name(iv) => e matches StringToObjectError::Name { cause, .. } && cause@ == iv,
        S2OErrView::NeedsCall(n) => e matches StringToObjectError::NeedsANamingCall { name, .. }
            && name@ == n,
    }
}

/// Whether an exec result is the one `string_to_object` is specified to give.
pub open spec fn s2o_result_is(r: Result<Ior, StringToObjectError>, t: Seq<(Seq<char>, IorView)>, s: Seq<char>) -> bool {
    match s2o_spec(t, s) {
        Ok(v) => r matches Ok(x) && x@ == v,
        Err(v) => r matches Err(e) && s2o_error_is(e, trim_chars(s), v),
    }
}

impl Orb {
    /// `ORB::string_to_object` (CORBA 3.4 §8.2.2.2) — decides what a
    /// stringified reference is and turns it into one: `IOR:<hex>`,
    /// `corbaloc:` and `corbaname:`, and `corbaloc:rir:` through the table.
    /// A URL carries no type, so a URL-built reference has an empty type id.
    pub fn string_to_object(&self, s: &str) -> (r: Result<Ior, StringToObjectError>)
        requires
            self.wf(),
        ensures
            s2o_result_is(r, self@.table, s@),
    {
        reveal(s2o_spec);
        let text = crate::text::trim(s);
        let cs = chars_of(text);
        let prefix = vec!['I', 'O', 'R', ':'];
        assert(prefix@ =~= ior_colon());
        if crate::chars::strip_prefix_ci(cs.as_slice(), prefix.as_slice()).is_some() {
            return match parse_ior_text(text) {
                Ok(ior) => Ok(ior),
                Err(cause) => Err(StringToObjectError::Ior { text: text.to_owned(), cause }),
            };
        }
        let url = match ObjectUrl::parse(text) {
            Ok(u) => u,
            Err(cause) => {
                return match cause {
                    UrlError::BadSchemeName(_) => Err(
                        StringToObjectError::NotAReferenceString { text: text.to_owned() },
                    ),
                    other => Err(StringToObjectError::Url { text: text.to_owned(), cause: other }),
                };
            },
        };
        if let ObjectUrl::Corbaname { name, .. } = &url {
            if name.len() > 0 {
                assert(names_view(name@).len() > 0);
                return Err(
                    StringToObjectError::NeedsANamingCall {
                        text: text.to_owned(),
                        name: stringify_name(name.as_slice()),
                    },
                );
            }
        }
        assert(named_corbaname(url@) is None);
        proof {
            reveal_strlit("");
            assert(""@ =~= Seq::<char>::empty());
            assert(text@ == trim_chars(s@));
            assert(strip_ci(text@, ior_colon()) is None);
            assert(url_spec(text@) == Ok::<UrlView, UrlErrorKind>(url@));
        }
        match self.resolve_url(&url, "") {
            Ok(ior) => Ok(ior),
            Err(cause) => Err(StringToObjectError::Name { text: text.to_owned(), cause }),
        }
    }

    /// `ORB::object_to_string` (CORBA 3.4 §8.2.2.1) — the `IOR:<hex>`
    /// string for a reference, never a URL.
    pub fn object_to_string(&self, obj: &Ior) -> (r: Result<String, Error>)
        ensures
            crate::ior::ior_encoding(crate::cdr::encapsulation_start(crate::cdr::Endian::Little), obj@).ok ==> (
            r matches Ok(s) && crate::text::bytes_of(s@) == crate::ior::ior_prefix() + crate::ior::hex_encode(
                crate::ior::ior_encoding(crate::cdr::encapsulation_start(crate::cdr::Endian::Little), obj@).bytes,
            )),
            !crate::ior::ior_encoding(crate::cdr::encapsulation_start(crate::cdr::Endian::Little), obj@).ok
                ==> r matches Err(Error::Cdr(crate::cdr::CdrError::TooLong)),
    {
        obj.to_stringified()
    }
}

/// `string_to_object(object_to_string(obj))` is `obj` (§8.2.2), whatever
/// the table holds, for every reference whose encoding carries all of it: a
/// 1.0 profile has no room for components, and a reference too large to
/// encode has no string at all.
pub proof fn law_object_string_round_trip(t: Seq<(Seq<char>, IorView)>, obj: IorView, s: Seq<char>)
    requires
        crate::ior::ior_encoding(crate::cdr::encapsulation_start(crate::cdr::Endian::Little), obj).ok,
        forall|i: int|
            0 <= i < obj.profiles.len() ==> crate::ior::carries_all(#[trigger] obj.profiles[i]),
        crate::text::bytes_of(s) == crate::ior::ior_prefix() + crate::ior::hex_encode(
            crate::ior::ior_encoding(crate::cdr::encapsulation_start(crate::cdr::Endian::Little), obj).bytes,
        ),
    ensures
        s2o_spec(t, s) == Ok::<IorView, S2OErrView>(obj),
{
    crate::ior::law_ior_text_round_trip(obj, s);
    reveal(s2o_spec);
    assert(s.take(4) == ior_colon());
    assert(crate::chars::eq_ci(s.take(4), ior_colon()));
}

/// The table a configuration's initial references build, each read by
/// `string_to_object` against an empty table, in order; the first that
/// cannot be read stops it, with its index and the refusal.
pub open spec fn table_of_refs(refs: Seq<(Seq<char>, Seq<char>)>) -> Result<
    Seq<(Seq<char>, IorView)>,
    (int, S2OErrView),
>
    decreases refs.len(),
{
    if refs.len() == 0 {
        Ok(Seq::empty())
    } else {
        match table_of_refs(refs.drop_last()) {
            Err(e) => Err(e),
            Ok(t) => match s2o_spec(Seq::empty(), refs.last().1) {
                Ok(v) => Ok(put_entry(t, refs.last().0, v)),
                Err(x) => Err((refs.len() - 1, x)),
            },
        }
    }
}

/// `reason` is how the refusal `x` of `url` reads.
pub open spec fn reason_is(reason: Seq<char>, url: Seq<char>, x: S2OErrView) -> bool {
    exists|e: StringToObjectError| s2o_error_is(e, trim_chars(url), x) && reason
        == crate::display::s2o_text(e)
}

proof fn lemma_table_of_refs_stop(refs: Seq<(Seq<char>, Seq<char>)>, i: int)
    requires
        0 < i <= refs.len(),
        table_of_refs(refs.take(i)) is Err,
    ensures
        table_of_refs(refs) == table_of_refs(refs.take(i)),
    decreases refs.len() - i,
{
    if i < refs.len() {
        assert(refs.take(i + 1).drop_last() =~= refs.take(i));
        lemma_table_of_refs_stop(refs, i + 1);
    } else {
        assert(refs.take(i) =~= refs);
    }
}

impl Orb {
    /// An ORB carrying a deployment's configuration. Every `-ORBInitRef` is
    /// read with [`Orb::string_to_object`] and registered, all of them or
    /// none: the table is built to one side and moved in only once every
    /// entry has been read.
    pub fn with_config(config: OrbConfig) -> (r: Result<Orb, ConfigError>)
        ensures
            match table_of_refs(config@.initial_references) {
                Ok(t) => r matches Ok(orb) && orb.wf() && orb@.table == t && orb@.config == config@
                    && !orb@.stopped,
                Err((i, x)) => r matches Err(ConfigError::InitRefUnreadable { object_id, url, reason })
                    && object_id@ == config@.initial_references[i].0 && url@
                    == config@.initial_references[i].1 && reason_is(reason@, url@, x),
            },
    {
        let empty = Orb::new();
        let mut acc = Orb::new();
        let refs = config.initial_references();
        let ghost rv = config@.initial_references;
        let mut i: usize = 0;
        assert(rv.take(0) =~= Seq::<(Seq<char>, Seq<char>)>::empty());
        assert(acc@.table =~= Seq::<(Seq<char>, IorView)>::empty());
        while i < refs.len()
            invariant
                i <= refs@.len(),
                crate::orb::config::pairs_view(refs@) == rv,
                rv == config@.initial_references,
                empty.wf(),
                empty@.table.len() == 0,
                acc.wf(),
                table_of_refs(rv.take(i as int)) == Ok::<Seq<(Seq<char>, IorView)>, (int, S2OErrView)>(
                    acc@.table,
                ),
            decreases refs.len() - i,
        {
            let (id, url) = (&refs[i].0, &refs[i].1);
            proof {
                assert(rv[i as int] == (id@, url@));
                assert(rv.take(i + 1).drop_last() =~= rv.take(i as int));
                assert(rv.take(i + 1).last() == (id@, url@));
                assert(empty@.table =~= Seq::<(Seq<char>, IorView)>::empty());
            }
            match empty.string_to_object(url.as_str()) {
                Err(cause) => {
                    let reason = cause.message();
                    proof {
                        lemma_table_of_refs_stop(rv, i + 1);
                        let x = s2o_spec(Seq::empty(), url@)->Err_0;
                        assert(s2o_error_is(cause, trim_chars(url@), x));
                        assert(reason_is(reason@, url@, x));
                        assert(table_of_refs(rv.take(i + 1)) == Err::<Seq<(Seq<char>, IorView)>, (int, S2OErrView)>((i as int, x)));
                        assert(table_of_refs(rv) == Err::<Seq<(Seq<char>, IorView)>, (int, S2OErrView)>((i as int, x)));
                    }
                    let oid = id.clone();
                    let u2 = url.clone();
                    proof {
                        let x = s2o_spec(Seq::empty(), url@)->Err_0;
                        assert(oid@ == config@.initial_references[i as int].0);
                        assert(u2@ == config@.initial_references[i as int].1);
                        assert(reason_is(reason@, u2@, x));
                    }
                    return Err(ConfigError::InitRefUnreadable { object_id: oid, url: u2, reason });
                },
                Ok(ior) => {
                    acc.put(id.as_str(), ior);
                },
            }
            i = i + 1;
        }
        assert(rv.take(refs@.len() as int) =~= rv);
        Ok(Orb { initial: acc.initial, config, stopped: false })
    }
}

impl Orb {
    /// Stops the ORB: every server it handed out is asked to stop and every
    /// pool is closed (that is the caller's to do, handout by handout), and
    /// from now on it hands out nothing live. Idempotent and one-way: the
    /// table and the configuration are untouched, and nothing un-stops it.
    /// Answers the tally of what became of the handouts.
    pub fn shutdown(&mut self, servers_alive: &[bool], pools_closed: &[bool]) -> (r: Shutdown)
        requires
            servers_alive@.len() + pools_closed@.len() <= usize::MAX,
        ensures
            final(self)@ == (OrbView { stopped: true, ..old(self)@ }),
            r@.servers == count_true(servers_alive@),
            r@.pools == count_true(pools_closed@),
            r@.already_gone == (servers_alive@.len() - count_true(servers_alive@)) + (pools_closed@.len()
                - count_true(pools_closed@)),
    {
        self.stopped = true;
        Shutdown::tally(servers_alive, pools_closed)
    }

    /// Whether this ORB was shut down.
    pub fn is_shutdown(&self) -> (r: bool)
        ensures
            r == self@.stopped,
    {
        self.stopped
    }
}

/// What one [`Orb`] shutdown did: servers still alive and now asked to
/// stop, pools still alive and now closed, and handouts already dropped.
#[derive(Debug, Clone, Copy, PartialEq, Eq)]
pub struct Shutdown {
    servers: usize,
    pools: usize,
    already_gone: usize,
}

/// A shutdown tally as values.
pub struct ShutdownView {
    pub servers: nat,
    pub pools: nat,
    pub already_gone: nat,
}

impl View for Shutdown {
    type V = ShutdownView;

    closed spec fn view(&self) -> ShutdownView {
        ShutdownView {
            servers: self.servers as nat,
            pools: self.pools as nat,
            already_gone: self.already_gone as nat,
        }
    }
}

/// How many of the flags hold.
pub open spec fn count_true(v: Seq<bool>) -> nat
    decreases v.len(),
{
    if v.len() == 0 {
        0
    } else {
        count_true(v.drop_last()) + if v.last() {
            1nat
        } else {
            0nat
        }
    }
}

proof fn lemma_count_true_le(v: Seq<bool>)
    ensures
        count_true(v) <= v.len(),
    decreases v.len(),
{
    if v.len() > 0 {
        lemma_count_true_le(v.drop_last());
    }
}

impl Shutdown {
    /// The tally of one shutdown, from what became of each handout: for each
    /// server, whether it was still alive (and so asked to stop); for each
    /// pool, whether it was still alive (and so closed). Everything else had
    /// already been dropped.
    pub fn tally(servers_alive: &[bool], pools_closed: &[bool]) -> (r: Shutdown)
        requires
            servers_alive@.len() + pools_closed@.len() <= usize::MAX,
        ensures
            r@.servers == count_true(servers_alive@),
            r@.pools == count_true(pools_closed@),
            r@.already_gone == (servers_alive@.len() - count_true(servers_alive@)) + (pools_closed@.len()
                - count_true(pools_closed@)),
    {
        let mut servers: usize = 0;
        let mut gone: usize = 0;
        let mut i: usize = 0;
        while i < servers_alive.len()
            invariant
                i <= servers_alive@.len(),
                servers == count_true(servers_alive@.take(i as int)),
                servers + gone == i,
            decreases servers_alive.len() - i,
        {
            assert(servers_alive@.take(i + 1).drop_last() =~= servers_alive@.take(i as int));
            if servers_alive[i] {
                servers = servers + 1;
            } else {
                gone = gone + 1;
            }
            i = i + 1;
        }
        assert(servers_alive@.take(i as int) =~= servers_alive@);
        let mut pools: usize = 0;
        let mut j: usize = 0;
        let ghost gone_servers = gone;
        while j < pools_closed.len()
            invariant
                j <= pools_closed@.len(),
                pools == count_true(pools_closed@.take(j as int)),
                gone >= gone_servers,
                gone - gone_servers + pools == j,
                gone_servers + servers == servers_alive@.len(),
                servers == count_true(servers_alive@),
                servers_alive@.len() + pools_closed@.len() <= usize::MAX,
            decreases pools_closed.len() - j,
        {
            assert(pools_closed@.take(j + 1).drop_last() =~= pools_closed@.take(j as int));
            if pools_closed[j] {
                pools = pools + 1;
            } else {
                gone = gone + 1;
            }
            j = j + 1;
        }
        assert(pools_closed@.take(j as int) =~= pools_closed@);
        Shutdown { servers, pools, already_gone: gone }
    }

    /// Servers that were still alive and have now been asked to stop.
    pub fn servers(&self) -> (r: usize)
        ensures
            r == self@.servers,
    {
        self.servers
    }

    /// Pools that were still alive and are now closed.
    pub fn pools(&self) -> (r: usize)
        ensures
            r == self@.pools,
    {
        self.pools
    }

    /// Handouts that had already been dropped, so there was nothing to stop.
    pub fn already_gone(&self) -> (r: usize)
        ensures
            r == self@.already_gone,
    {
        self.already_gone
    }
}

/// Unregistering answers what was registered and takes the name out of the
/// table and its listing, every other name untouched; the name can then be
/// registered again and resolves to the new reference.
pub proof fn law_unregister_then_register(t: Seq<(Seq<char>, IorView)>, k: Seq<char>, x: IorView)
    requires
        sorted(t),
        lookup(t, k) is Some,
    ensures
        ({
            let t1 = t.remove(position(t, k));
            let t2 = t1.insert(insert_pos(t1, k), (k, x));
            &&& sorted(t1)
            &&& lookup(t1, k) is None
            &&& !keys_of(t1).contains(k)
            &&& forall|q: Seq<char>| q != k ==> lookup(t1, q) == lookup(t, q)
            &&& sorted(t2)
            &&& resolve_spec(t2, k) == Ok::<IorView, InvalidNameView>(x)
            &&& forall|q: Seq<char>| q != k ==> lookup(t2, q) == lookup(t, q)
        }),
{
    lemma_lookup_index(t, k);
    lemma_lookup_unique(t, k);
    let p = position(t, k);
    let t1 = t.remove(p);
    assert(sorted(t1)) by {
        assert forall|i: int, j: int| 0 <= i < j < t1.len() implies text_lt(
            #[trigger] t1[i].0,
            #[trigger] t1[j].0,
        ) by {
            let a = if i < p { i } else { i + 1 };
            let b = if j < p { j } else { j + 1 };
            assert(t1[i] == t[a] && t1[j] == t[b]);
        }
    }
    assert forall|i: int| 0 <= i < t1.len() implies t1[i].0 != k by {
        let a = if i < p { i } else { i + 1 };
        assert(t1[i] == t[a]);
        if t[a].0 == k {
            assert(text_lt(t[a].0, t[p].0) || text_lt(t[p].0, t[a].0));
            lemma_text_lt_irreflexive(k);
        }
    }
    lemma_lookup_index(t1, k);
    assert(!keys_of(t1).contains(k)) by {
        if keys_of(t1).contains(k) {
            let i = choose|i: int| 0 <= i < keys_of(t1).len() && keys_of(t1)[i] == k;
            assert(t1[i].0 == k);
        }
    }
    assert forall|q: Seq<char>| q != k implies lookup(t1, q) == lookup(t, q) by {
        lemma_lookup_index(t, q);
        lemma_lookup_index(t1, q);
        lemma_lookup_unique(t, q);
        lemma_lookup_unique(t1, q);
        if position(t, q) >= 0 {
            let i = position(t, q);
            assert(i != p);
            let j = if i < p { i } else { i - 1 };
            assert(t1[j] == t[i]);
        }
        if position(t1, q) >= 0 {
            let j = position(t1, q);
            let i = if j < p { j } else { j + 1 };
            assert(t1[j] == t[i]);
        }
    }
    law_insert_sorted(t1, k, x);
}

proof fn lemma_count_true_bound(v: Seq<bool>)
    ensures
        count_true(v) <= v.len(),
    decreases v.len(),
{
    if v.len() > 0 {
        lemma_count_true_bound(v.drop_last());
    }
}

/// A shutdown accounts for every handout exactly once (stopped now, or
/// already gone); it leaves the ORB stopped with its table and
/// configuration as they were; and shutting a stopped ORB down again
/// changes nothing.
pub proof fn law_shutdown_accounts_and_settles(o: OrbView, servers_alive: Seq<bool>, pools_closed: Seq<bool>)
    ensures
        ({
            let after = OrbView { stopped: true, ..o };
            let tally = ShutdownView {
                servers: count_true(servers_alive),
                pools: count_true(pools_closed),
                already_gone: ((servers_alive.len() - count_true(servers_alive)) + (pools_closed.len()
                    - count_true(pools_closed))) as nat,
            };
            &&& after.stopped
            &&& after.table == o.table
            &&& after.config == o.config
            &&& OrbView { stopped: true, ..after } == after
            &&& tally.servers + tally.pools + tally.already_gone == servers_alive.len() + pools_closed.len()
        }),
{
    lemma_count_true_bound(servers_alive);
    lemma_count_true_bound(pools_closed);
}

/// `string_to_object` also reads back what `object_to_string` gave with
/// whitespace around it and its `IOR:` prefix spelled in any case.
pub proof fn law_object_string_round_trip_loosely(
    t: Seq<(Seq<char>, IorView)>,
    obj: IorView,
    s: Seq<char>,
    p: Seq<char>,
    lead: Seq<char>,
    trail: Seq<char>,
)
    requires
        crate::ior::ior_encoding(crate::cdr::encapsulation_start(crate::cdr::Endian::Little), obj).ok,
        forall|i: int|
            0 <= i < obj.profiles.len() ==> crate::ior::carries_all(#[trigger] obj.profiles[i]),
        crate::text::bytes_of(s) == crate::ior::ior_prefix() + crate::ior::hex_encode(
            crate::ior::ior_encoding(crate::cdr::encapsulation_start(crate::cdr::Endian::Little), obj).bytes,
        ),
        p.len() == 4,
        crate::chars::eq_ci(p, ior_colon()),
        forall|i: int| 0 <= i < lead.len() ==> crate::text::is_whitespace(#[trigger] lead[i]),
        forall|i: int| 0 <= i < trail.len() ==> crate::text::is_whitespace(#[trigger] trail[i]),
    ensures
        s2o_spec(t, lead + (p + s.skip(4)) + trail) == Ok::<IorView, S2OErrView>(obj),
{
    assert(ior_colon() =~= seq!['I', 'O', 'R', ':']);
    crate::ior::law_ior_text_reads_loosely(obj, s, p, lead, trail);
    reveal(s2o_spec);
}

} // verus!
