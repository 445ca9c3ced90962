//! An in-memory CosNaming servant: a tree of naming contexts, each addressed
//! by its own object key, and every operation of `NamingContext` and
//! `NamingContextExt` decided against that tree.
//!
//! The servant is the deciding half only. Receiving a request, holding the
//! tree behind a lock and sending the reply belong to whoever serves it;
//! here an operation is a name, an object key, the argument stream and an
//! output stream, and its answer is a result, a new tree and the octets
//! written.
//!
//! - `list` returns at most `how_many` bindings, in name order, and always a
//!   nil iterator.
//! - `bind_context`/`rebind_context` bind only a context this servant serves:
//!   a reference addressed at this server's host and port whose object key
//!   the tree holds. Anything else is `NO_IMPLEMENT`.
//! - `destroy` retires an empty context; the bindings that name it stay.
//! - A failure is a CosNaming user exception, or a system exception for the
//!   failures CORBA itself defines. Nothing is written to the output stream
//!   before an operation can no longer raise a user exception.

use vstd::prelude::*;

use crate::cdr::{CdrError, Decoder, DecoderView, Encoder, EncoderView};
use crate::chars::{chars_of, slices_eq, text_is};
use crate::giop::{Error, Version};
use crate::ior::{
    ior_encoding, ior_from_wire, ior_of_wire, lemma_ior_of_wire, read_ior_wire, IiopProfile, Ior,
    IorView, ProfileView, TaggedComponent,
};
use crate::naming::{
    lemma_names_of, name_spec, names_of, names_from_wire, names_view, parse_stringified_name, put_name, read_name,
    read_name_wire, stringify, stringify_name, to_url, to_url_spec, write_name, NameComponent,
    NameView, UrlError, UrlErrorKind, NAMING_CONTEXT_EXT_ID,
};
use crate::orb::{
    lemma_text_lt_irreflexive, lemma_text_lt_total, lemma_text_lt_transitive, text_less, text_lt,
};
use crate::text::{bytes_eq, decimal, decimal_bytes, lossy_text};

verus! {

/// Repository id of the plain naming context interface. `_is_a` answers
/// `true` for it and for the `Ext` interface.
pub const NAMING_CONTEXT_ID: &'static str = "IDL:omg.org/CosNaming/NamingContext:1.0";

/// Repository id of `CosNaming::NamingContext::NotFound`.
pub const NOT_FOUND_ID: &'static str = "IDL:omg.org/CosNaming/NamingContext/NotFound:1.0";

/// Repository id of `CosNaming::NamingContext::AlreadyBound`.
pub const ALREADY_BOUND_ID: &'static str = "IDL:omg.org/CosNaming/NamingContext/AlreadyBound:1.0";

/// Repository id of `CosNaming::NamingContext::InvalidName`.
pub const INVALID_NAME_ID: &'static str = "IDL:omg.org/CosNaming/NamingContext/InvalidName:1.0";

/// Repository id of `CosNaming::NamingContext::NotEmpty`, raised by
/// `destroy` alone.
pub const NOT_EMPTY_ID: &'static str = "IDL:omg.org/CosNaming/NamingContext/NotEmpty:1.0";

/// Repository id of `CosNaming::NamingContextExt::InvalidAddress`, raised
/// by `to_url` alone.
pub const INVALID_ADDRESS_ID: &'static str =
    "IDL:omg.org/CosNaming/NamingContextExt/InvalidAddress:1.0";

/// Repository id every object is an instance of.
pub const CORBA_OBJECT_ID: &'static str = "IDL:omg.org/CORBA/Object:1.0";

/// `NotFoundReason::missing_node`: the component is not bound at all.
pub const WHY_MISSING_NODE: u32 = 0;

/// `NotFoundReason::not_context`: a component is bound to an object where a
/// context was needed.
pub const WHY_NOT_CONTEXT: u32 = 1;

/// `NotFoundReason::not_object`: `rebind` found a context where it may only
/// replace an object.
pub const WHY_NOT_OBJECT: u32 = 2;

/// `BindingType::nobject` on the wire.
pub const BINDING_OBJECT: u32 = 0;

/// `BindingType::ncontext` on the wire.
pub const BINDING_CONTEXT: u32 = 1;

// ─────────────────────────────────────────────────────────────────────────────
// Failures
// ─────────────────────────────────────────────────────────────────────────────

/// The CORBA system exceptions this servant raises.
#[derive(Debug, Clone, Copy, PartialEq, Eq, Structural)]
pub enum SystemExc {
    /// The arguments did not decode.
    Marshal,
    /// The object key names no context of this tree.
    ObjectNotExist,
    /// `bind_context` was handed a context this servant does not serve.
    NoImplement,
    /// The operation is not one a naming context declares.
    BadOperation,
    /// This servant's own two halves disagreed.
    Internal,
    /// A user exception where none can be carried.
    UnknownUserException,
}

/// The CosNaming user exceptions this servant raises.
#[derive(Debug, Clone, PartialEq, Eq)]
pub enum UserExc {
    /// `NotFound { why, rest_of_name }`; the rest starts at the component
    /// that failed.
    NotFound { why: u32, rest: Vec<NameComponent> },
    /// `AlreadyBound`.
    AlreadyBound,
    /// `InvalidName`.
    InvalidName,
    /// `NotEmpty`.
    NotEmpty,
    /// `NamingContextExt::InvalidAddress`.
    InvalidAddress,
}

/// A user exception as values.
pub enum UserExcView {
    NotFound { why: u32, rest: Seq<NameView> },
    AlreadyBound,
    InvalidName,
    NotEmpty,
    InvalidAddress,
}

impl View for UserExc {
    type V = UserExcView;

    open spec fn view(&self) -> UserExcView {
        match self {
            UserExc::NotFound { why, rest } => UserExcView::NotFound {
                why: *why,
                rest: names_view(rest@),
            },
            UserExc::AlreadyBound => UserExcView::AlreadyBound,
            UserExc::InvalidName => UserExcView::InvalidName,
            UserExc::NotEmpty => UserExcView::NotEmpty,
            UserExc::InvalidAddress => UserExcView::InvalidAddress,
        }
    }
}

/// What an operation raises: a user exception or a system exception.
#[derive(Debug, Clone, PartialEq, Eq)]
pub enum Raise {
    User(UserExc),
    System(SystemExc),
}

/// A raise as values.
pub enum RaiseView {
    User(UserExcView),
    System(SystemExc),
}

impl View for Raise {
    type V = RaiseView;

    open spec fn view(&self) -> RaiseView {
        match self {
            Raise::User(u) => RaiseView::User(u@),
            Raise::System(s) => RaiseView::System(*s),
        }
    }
}

/// The result of an operation as values.
pub open spec fn result_view<T>(r: Result<T, Raise>) -> Result<(), RaiseView> {
    match r {
        Ok(_) => Ok(()),
        Err(e) => Err(e@),
    }
}

/// The body of a user exception: its repository id, then its members.
pub open spec fn user_exc_encoding(e: EncoderView, u: UserExcView) -> EncoderView {
    match u {
        UserExcView::NotFound { why, rest } => put_name(e.put_str(NOT_FOUND_ID@).put_u32(why), rest),
        UserExcView::AlreadyBound => e.put_str(ALREADY_BOUND_ID@),
        UserExcView::InvalidName => e.put_str(INVALID_NAME_ID@),
        UserExcView::NotEmpty => e.put_str(NOT_EMPTY_ID@),
        UserExcView::InvalidAddress => e.put_str(INVALID_ADDRESS_ID@),
    }
}

impl UserExc {
    /// Writes the exception body: repository id first, then the members.
    pub fn write(&self, out: &mut Encoder)
        ensures
            final(out)@ == user_exc_encoding(old(out)@, self@),
    {
        match self {
            UserExc::NotFound { why, rest } => {
                out.put_str(NOT_FOUND_ID);
                out.put_u32(*why);
                write_name(out, rest.as_slice());
            },
            UserExc::AlreadyBound => out.put_str(ALREADY_BOUND_ID),
            UserExc::InvalidName => out.put_str(INVALID_NAME_ID),
            UserExc::NotEmpty => out.put_str(NOT_EMPTY_ID),
            UserExc::InvalidAddress => out.put_str(INVALID_ADDRESS_ID),
        }
    }
}

// ─────────────────────────────────────────────────────────────────────────────
// The order of names
// ─────────────────────────────────────────────────────────────────────────────

/// Names ordered by `id`, then by `kind`: the order `list` reports in.
pub open spec fn name_lt(a: NameView, b: NameView) -> bool {
    text_lt(a.id, b.id) || (a.id == b.id && text_lt(a.kind, b.kind))
}

proof fn lemma_name_lt_irreflexive(a: NameView)
    ensures
        !name_lt(a, a),
{
    lemma_text_lt_irreflexive(a.id);
    lemma_text_lt_irreflexive(a.kind);
}

proof fn lemma_name_lt_transitive(a: NameView, b: NameView, c: NameView)
    requires
        name_lt(a, b),
        name_lt(b, c),
    ensures
        name_lt(a, c),
{
    if text_lt(a.id, b.id) && text_lt(b.id, c.id) {
        lemma_text_lt_transitive(a.id, b.id, c.id);
    } else if text_lt(a.id, b.id) {
    } else if text_lt(b.id, c.id) {
    } else {
        lemma_text_lt_transitive(a.kind, b.kind, c.kind);
    }
}

proof fn lemma_name_lt_total(a: NameView, b: NameView)
    ensures
        a != b ==> name_lt(a, b) || name_lt(b, a),
{
    lemma_text_lt_total(a.id, b.id);
    lemma_text_lt_total(a.kind, b.kind);
}

/// Whether `a` sorts before `b`.
fn name_less(a: &NameComponent, b: &NameComponent) -> (r: bool)
    ensures
        r == name_lt(a@, b@),
{
    let ai = chars_of(a.id.as_str());
    let bi = chars_of(b.id.as_str());
    if text_less(ai.as_slice(), bi.as_slice()) {
        true
    } else if slices_eq(ai.as_slice(), bi.as_slice()) {
        let ak = chars_of(a.kind.as_str());
        let bk = chars_of(b.kind.as_str());
        text_less(ak.as_slice(), bk.as_slice())
    } else {
        false
    }
}

/// Whether two components have the same text.
fn same_name(a: &NameComponent, b: &NameComponent) -> (r: bool)
    ensures
        r == (a@ == b@),
{
    let ai = chars_of(a.id.as_str());
    let bi = chars_of(b.id.as_str());
    let ak = chars_of(a.kind.as_str());
    let bk = chars_of(b.kind.as_str());
    slices_eq(ai.as_slice(), bi.as_slice()) && slices_eq(ak.as_slice(), bk.as_slice())
}

// ─────────────────────────────────────────────────────────────────────────────
// Binding tables
// ─────────────────────────────────────────────────────────────────────────────

/// What a name is bound to.
#[derive(Debug)]
pub enum Bound {
    /// An object reference, held verbatim.
    Object(Ior),
    /// A context of this tree, held by its object key.
    Context(Vec<u8>),
}

/// A binding target as values.
pub enum BoundView {
    Object(IorView),
    Context(Seq<u8>),
}

impl View for Bound {
    type V = BoundView;

    open spec fn view(&self) -> BoundView {
        match self {
            Bound::Object(ior) => BoundView::Object(ior@),
            Bound::Context(k) => BoundView::Context(k@),
        }
    }
}

impl Bound {
    /// A copy with the same target.
    pub fn duplicate(&self) -> (r: Bound)
        ensures
            r@ == self@,
    {
        match self {
            Bound::Object(ior) => Bound::Object(ior.duplicate()),
            Bound::Context(k) => {
                let mut c: Vec<u8> = Vec::new();
                crate::text::push_all(&mut c, k.as_slice());
                assert(c@ =~= k@);
                Bound::Context(c)
            },
        }
    }
}

/// One binding of a context.
#[derive(Debug)]
struct Entry {
    name: NameComponent,
    bound: Bound,
}

spec fn entries_view(t: Seq<Entry>) -> Seq<(NameView, BoundView)> {
    t.map_values(|e: Entry| (e.name@, e.bound@))
}

/// Names in strictly increasing order: every table's invariant, and the
/// order `list` reports.
pub open spec fn bindings_sorted(t: Seq<(NameView, BoundView)>) -> bool {
    forall|i: int, j: int| 0 <= i < j < t.len() ==> name_lt(#[trigger] t[i].0, #[trigger] t[j].0)
}

/// What `k` is bound to in `t`.
pub open spec fn binding_of(t: Seq<(NameView, BoundView)>, k: NameView) -> Option<BoundView>
    decreases t.len(),
{
    if t.len() == 0 {
        None
    } else if t[0].0 == k {
        Some(t[0].1)
    } else {
        binding_of(t.drop_first(), k)
    }
}

/// Where `k` is bound in `t`, or `-1`.
pub open spec fn slot_of(t: Seq<(NameView, BoundView)>, k: NameView) -> int
    decreases t.len(),
{
    if t.len() == 0 {
        -1
    } else if t[0].0 == k {
        0
    } else if slot_of(t.drop_first(), k) < 0 {
        -1
    } else {
        1 + slot_of(t.drop_first(), k)
    }
}

/// Where a new binding for `k` goes: before the first name it sorts before.
pub open spec fn slot_for(t: Seq<(NameView, BoundView)>, k: NameView) -> int
    decreases t.len(),
{
    if t.len() == 0 {
        0
    } else if name_lt(k, t[0].0) {
        0
    } else {
        1 + slot_for(t.drop_first(), k)
    }
}

/// `t` with `k` bound to `v`: replaced where `k` is, inserted in order
/// otherwise.
pub open spec fn with_binding(t: Seq<(NameView, BoundView)>, k: NameView, v: BoundView) -> Seq<
    (NameView, BoundView),
> {
    if slot_of(t, k) >= 0 {
        t.update(slot_of(t, k), (k, v))
    } else {
        t.insert(slot_for(t, k), (k, v))
    }
}

/// `t` without its binding for `k`.
pub open spec fn without_binding(t: Seq<(NameView, BoundView)>, k: NameView) -> Seq<
    (NameView, BoundView),
> {
    if slot_of(t, k) >= 0 {
        t.remove(slot_of(t, k))
    } else {
        t
    }
}

proof fn lemma_slot_of(t: Seq<(NameView, BoundView)>, k: NameView)
    ensures
        binding_of(t, k) is Some <==> slot_of(t, k) >= 0,
        slot_of(t, k) >= 0 ==> slot_of(t, k) < t.len() && t[slot_of(t, k)].0 == k && binding_of(
            t,
            k,
        ) == Some(t[slot_of(t, k)].1),
        slot_of(t, k) < 0 ==> forall|i: int| 0 <= i < t.len() ==> t[i].0 != k,
        slot_of(t, k) >= 0 ==> forall|i: int| 0 <= i < slot_of(t, k) ==> t[i].0 != k,
    decreases t.len(),
{
    if t.len() > 0 {
        lemma_slot_of(t.drop_first(), k);
        assert forall|i: int| 1 <= i < t.len() implies t[i] == t.drop_first()[i - 1] by {}
    }
}

/// The first index holding `k` is `slot_of`.
proof fn lemma_first_slot(t: Seq<(NameView, BoundView)>, k: NameView, i: int)
    requires
        0 <= i <= t.len(),
        forall|j: int| 0 <= j < i ==> t[j].0 != k,
        i < t.len() ==> t[i].0 == k,
    ensures
        i < t.len() ==> slot_of(t, k) == i && binding_of(t, k) == Some(t[i].1),
        i == t.len() ==> slot_of(t, k) == -1 && binding_of(t, k) is None,
    decreases i,
{
    lemma_slot_of(t, k);
    if i > 0 {
        let r = t.drop_first();
        assert forall|j: int| 0 <= j < i - 1 implies r[j].0 != k by {
            assert(r[j] == t[j + 1]);
        }
        if i < t.len() {
            assert(r[i - 1] == t[i]);
        }
        lemma_first_slot(r, k, i - 1);
    }
}

proof fn lemma_slot_for(t: Seq<(NameView, BoundView)>, k: NameView)
    requires
        bindings_sorted(t),
        forall|i: int| 0 <= i < t.len() ==> t[i].0 != k,
    ensures
        0 <= slot_for(t, k) <= t.len(),
        forall|i: int| 0 <= i < slot_for(t, k) ==> name_lt(t[i].0, k),
        forall|i: int| slot_for(t, k) <= i < t.len() ==> name_lt(k, t[i].0),
    decreases t.len(),
{
    if t.len() > 0 {
        let rest = t.drop_first();
        assert(bindings_sorted(rest)) by {
            assert forall|i: int, j: int| 0 <= i < j < rest.len() implies name_lt(
                #[trigger] rest[i].0,
                #[trigger] rest[j].0,
            ) by {
                assert(rest[i] == t[i + 1] && rest[j] == t[j + 1]);
            }
        }
        assert forall|i: int| 0 <= i < rest.len() implies rest[i].0 != k by {
            assert(rest[i] == t[i + 1]);
        }
        lemma_slot_for(rest, k);
        lemma_name_lt_total(k, t[0].0);
        if name_lt(k, t[0].0) {
            assert forall|i: int| 0 <= i < t.len() implies name_lt(k, t[i].0) by {
                if i > 0 {
                    lemma_name_lt_transitive(k, t[0].0, t[i].0);
                }
            }
        } else {
            assert forall|i: int| 1 <= i < slot_for(t, k) implies name_lt(t[i].0, k) by {
                assert(t[i] == rest[i - 1]);
            }
            assert forall|i: int| slot_for(t, k) <= i < t.len() implies name_lt(k, t[i].0) by {
                assert(t[i] == rest[i - 1]);
            }
        }
    }
}

/// In a sorted table a name sits at one index at most.
proof fn lemma_sorted_unique(t: Seq<(NameView, BoundView)>, k: NameView)
    requires
        bindings_sorted(t),
    ensures
        forall|i: int| 0 <= i < t.len() && t[i].0 == k ==> slot_of(t, k) == i && binding_of(t, k)
            == Some(t[i].1),
{
    lemma_slot_of(t, k);
    assert forall|i: int| 0 <= i < t.len() && t[i].0 == k implies slot_of(t, k) == i
        && binding_of(t, k) == Some(t[i].1) by {
        let p = slot_of(t, k);
        if p != i {
            if p < i {
                assert(name_lt(t[p].0, t[i].0));
            } else {
                assert(name_lt(t[i].0, t[p].0));
            }
            lemma_name_lt_irreflexive(k);
        }
    }
}

/// Binding `k` keeps a table sorted, answers `v` for `k`, and every other
/// name as before.
pub proof fn law_with_binding(t: Seq<(NameView, BoundView)>, k: NameView, v: BoundView)
    requires
        bindings_sorted(t),
    ensures
        bindings_sorted(with_binding(t, k, v)),
        binding_of(with_binding(t, k, v), k) == Some(v),
        forall|q: NameView| q != k ==> binding_of(with_binding(t, k, v), q) == binding_of(t, q),
{
    lemma_slot_of(t, k);
    let n = with_binding(t, k, v);
    if slot_of(t, k) >= 0 {
        let p = slot_of(t, k);
        assert forall|i: int, j: int| 0 <= i < j < n.len() implies name_lt(
            #[trigger] n[i].0,
            #[trigger] n[j].0,
        ) by {
            assert(n[i].0 == t[i].0 && n[j].0 == t[j].0);
        }
        assert forall|q: NameView| binding_of(n, q) == (if q == k {
            Some(v)
        } else {
            binding_of(t, q)
        }) by {
            lemma_sorted_unique(n, q);
            lemma_sorted_unique(t, q);
            lemma_slot_of(n, q);
            lemma_slot_of(t, q);
            if q == k {
                assert(n[p].0 == k);
            } else {
                if slot_of(t, q) >= 0 {
                    assert(n[slot_of(t, q)] == t[slot_of(t, q)]);
                }
                if slot_of(n, q) >= 0 {
                    assert(n[slot_of(n, q)] == t[slot_of(n, q)]);
                }
            }
        }
    } else {
        lemma_slot_for(t, k);
        let p = slot_for(t, k);
        assert forall|i: int, j: int| 0 <= i < j < n.len() implies name_lt(
            #[trigger] n[i].0,
            #[trigger] n[j].0,
        ) by {
            if j < p {
            } else if j == p {
                assert(n[j].0 == k);
            } else if i < p {
                lemma_name_lt_transitive(n[i].0, k, n[j].0);
            } else if i == p {
                assert(n[j] == t[j - 1]);
            } else {
                assert(n[i] == t[i - 1] && n[j] == t[j - 1]);
            }
        }
        assert forall|q: NameView| binding_of(n, q) == (if q == k {
            Some(v)
        } else {
            binding_of(t, q)
        }) by {
            lemma_sorted_unique(n, q);
            lemma_sorted_unique(t, q);
            if q == k {
                assert(n[p].0 == k);
            } else {
                lemma_slot_of(t, q);
                lemma_slot_of(n, q);
                if slot_of(t, q) >= 0 {
                    let i = slot_of(t, q);
                    let j = if i < p {
                        i
                    } else {
                        i + 1
                    };
                    assert(n[j] == t[i]);
                }
                if slot_of(n, q) >= 0 {
                    let j = slot_of(n, q);
                    assert(j != p);
                    let i = if j < p {
                        j
                    } else {
                        j - 1
                    };
                    assert(n[j] == t[i]);
                }
            }
        }
    }
}

/// Unbinding `k` keeps a table sorted, leaves `k` unbound, and every other
/// name as before.
pub proof fn law_without_binding(t: Seq<(NameView, BoundView)>, k: NameView)
    requires
        bindings_sorted(t),
    ensures
        bindings_sorted(without_binding(t, k)),
        binding_of(without_binding(t, k), k) is None,
        forall|q: NameView| q != k ==> binding_of(without_binding(t, k), q) == binding_of(t, q),
{
    lemma_slot_of(t, k);
    let n = without_binding(t, k);
    if slot_of(t, k) >= 0 {
        let p = slot_of(t, k);
        assert forall|i: int, j: int| 0 <= i < j < n.len() implies name_lt(
            #[trigger] n[i].0,
            #[trigger] n[j].0,
        ) by {
            let a = if i < p {
                i
            } else {
                i + 1
            };
            let b = if j < p {
                j
            } else {
                j + 1
            };
            assert(n[i] == t[a] && n[j] == t[b]);
        }
        assert forall|q: NameView| binding_of(n, q) == (if q == k {
            None
        } else {
            binding_of(t, q)
        }) by {
            lemma_sorted_unique(n, q);
            lemma_sorted_unique(t, q);
            lemma_slot_of(t, q);
            lemma_slot_of(n, q);
            if q == k {
                if slot_of(n, q) >= 0 {
                    let j = slot_of(n, q);
                    let i = if j < p {
                        j
                    } else {
                        j + 1
                    };
                    assert(n[j] == t[i]);
                }
            } else {
                if slot_of(t, q) >= 0 {
                    let i = slot_of(t, q);
                    assert(i != p);
                    let j = if i < p {
                        i
                    } else {
                        i - 1
                    };
                    assert(n[j] == t[i]);
                }
                if slot_of(n, q) >= 0 {
                    let j = slot_of(n, q);
                    let i = if j < p {
                        j
                    } else {
                        j + 1
                    };
                    assert(n[j] == t[i]);
                }
            }
        }
    }
}

/// The index of `k` in `t`, if bound.
fn find_binding(t: &Vec<Entry>, k: &NameComponent) -> (r: Option<usize>)
    ensures
        match r {
            Some(i) => i < t@.len() && slot_of(entries_view(t@), k@) == i && binding_of(
                entries_view(t@),
                k@,
            ) == Some(t@[i as int].bound@),
            None => slot_of(entries_view(t@), k@) == -1 && binding_of(entries_view(t@), k@) is None,
        },
{
    let ghost tv = entries_view(t@);
    let mut i: usize = 0;
    while i < t.len()
        invariant
            i <= t@.len(),
            tv == entries_view(t@),
            forall|j: int| 0 <= j < i ==> tv[j].0 != k@,
        decreases t.len() - i,
    {
        if same_name(&t[i].name, k) {
            proof {
                lemma_first_slot(tv, k@, i as int);
            }
            return Some(i);
        }
        i = i + 1;
    }
    proof {
        lemma_first_slot(tv, k@, i as int);
    }
    None
}

/// Where a new binding for `k` goes.
fn find_slot_for(t: &Vec<Entry>, k: &NameComponent) -> (r: usize)
    ensures
        r == slot_for(entries_view(t@), k@),
{
    let ghost tv = entries_view(t@);
    let mut i: usize = 0;
    assert(tv.skip(0) =~= tv);
    while i < t.len() && !name_less(k, &t[i].name)
        invariant
            i <= t@.len(),
            tv == entries_view(t@),
            slot_for(tv, k@) == i + slot_for(tv.skip(i as int), k@),
        decreases t.len() - i,
    {
        assert(tv.skip(i as int)[0] == tv[i as int]);
        assert(tv.skip(i as int).drop_first() =~= tv.skip(i + 1));
        i = i + 1;
    }
    if i < t.len() {
        assert(tv.skip(i as int)[0] == tv[i as int]);
    }
    i
}

/// Binds `k` to `v` in `t`.
fn put_binding(t: &mut Vec<Entry>, k: NameComponent, v: Bound)
    ensures
        entries_view(final(t)@) == with_binding(entries_view(old(t)@), k@, v@),
{
    let ghost kv = k@;
    let ghost vv = v@;
    match find_binding(t, &k) {
        Some(i) => {
            t.set(i, Entry { name: k, bound: v });
            assert(entries_view(t@) =~= entries_view(old(t)@).update(i as int, (kv, vv)));
        },
        None => {
            let p = find_slot_for(t, &k);
            proof {
                lemma_slot_for_bound(entries_view(t@), k@);
            }
            t.insert(p, Entry { name: k, bound: v });
            assert(entries_view(t@) =~= entries_view(old(t)@).insert(p as int, (kv, vv)));
        },
    }
}

proof fn lemma_slot_for_bound(t: Seq<(NameView, BoundView)>, k: NameView)
    ensures
        0 <= slot_for(t, k) <= t.len(),
    decreases t.len(),
{
    if t.len() > 0 {
        lemma_slot_for_bound(t.drop_first(), k);
    }
}

// ─────────────────────────────────────────────────────────────────────────────
// The context table
// ─────────────────────────────────────────────────────────────────────────────

/// Context keys appear once each.
pub open spec fn keys_unique(cs: Seq<(Seq<u8>, Seq<(NameView, BoundView)>)>) -> bool {
    forall|i: int, j: int| 0 <= i < j < cs.len() ==> #[trigger] cs[i].0 != #[trigger] cs[j].0
}

/// The contexts as a map from object key to bindings.
pub open spec fn contexts_map(cs: Seq<(Seq<u8>, Seq<(NameView, BoundView)>)>) -> Map<
    Seq<u8>,
    Seq<(NameView, BoundView)>,
>
    decreases cs.len(),
{
    if cs.len() == 0 {
        Map::empty()
    } else {
        contexts_map(cs.drop_last()).insert(cs.last().0, cs.last().1)
    }
}

proof fn lemma_unique_drop_last(cs: Seq<(Seq<u8>, Seq<(NameView, BoundView)>)>)
    requires
        keys_unique(cs),
        cs.len() > 0,
    ensures
        keys_unique(cs.drop_last()),
        forall|i: int| 0 <= i < cs.len() - 1 ==> #[trigger] cs[i].0 != cs.last().0,
{
    assert forall|i: int, j: int| 0 <= i < j < cs.drop_last().len() implies #[trigger] cs.drop_last()[i].0
        != #[trigger] cs.drop_last()[j].0 by {
        assert(cs.drop_last()[i] == cs[i] && cs.drop_last()[j] == cs[j]);
    }
    assert forall|i: int| 0 <= i < cs.len() - 1 implies #[trigger] cs[i].0 != cs.last().0 by {
        assert(cs[i].0 != cs[cs.len() - 1].0);
    }
}

proof fn lemma_contexts_index(cs: Seq<(Seq<u8>, Seq<(NameView, BoundView)>)>)
    requires
        keys_unique(cs),
    ensures
        forall|i: int|
            0 <= i < cs.len() ==> contexts_map(cs).contains_key(#[trigger] cs[i].0)
                && contexts_map(cs)[cs[i].0] == cs[i].1,
        forall|k: Seq<u8>|
            contexts_map(cs).contains_key(k) ==> exists|i: int| 0 <= i < cs.len() && #[trigger] cs[i].0 == k,
    decreases cs.len(),
{
    if cs.len() > 0 {
        let d = cs.drop_last();
        lemma_unique_drop_last(cs);
        lemma_contexts_index(d);
        assert forall|i: int|
            0 <= i < cs.len() implies contexts_map(cs).contains_key(#[trigger] cs[i].0)
                && contexts_map(cs)[cs[i].0] == cs[i].1 by {
            if i < cs.len() - 1 {
                assert(cs[i] == d[i]);
            }
        }
        assert forall|k: Seq<u8>| contexts_map(cs).contains_key(k) implies exists|i: int|
            0 <= i < cs.len() && #[trigger] cs[i].0 == k by {
            if k == cs.last().0 {
                assert(cs[cs.len() - 1].0 == k);
            } else {
                assert(contexts_map(cs) == contexts_map(d).insert(cs.last().0, cs.last().1));
                assert(contexts_map(d).contains_key(k));
                let i = choose|i: int| 0 <= i < d.len() && #[trigger] d[i].0 == k;
                assert(cs[i] == d[i]);
            }
        }
    }
}

proof fn lemma_contexts_update(cs: Seq<(Seq<u8>, Seq<(NameView, BoundView)>)>, i: int, t: Seq<(NameView, BoundView)>)
    requires
        keys_unique(cs),
        0 <= i < cs.len(),
    ensures
        keys_unique(cs.update(i, (cs[i].0, t))),
        contexts_map(cs.update(i, (cs[i].0, t))) == contexts_map(cs).insert(cs[i].0, t),
    decreases cs.len(),
{
    let n = cs.update(i, (cs[i].0, t));
    assert forall|a: int, b: int| 0 <= a < b < n.len() implies #[trigger] n[a].0 != #[trigger] n[b].0 by {
        assert(n[a].0 == cs[a].0 && n[b].0 == cs[b].0);
    }
    lemma_unique_drop_last(cs);
    if i == cs.len() - 1 {
        assert(n.drop_last() =~= cs.drop_last());
        assert(contexts_map(n) =~= contexts_map(cs).insert(cs[i].0, t));
    } else {
        lemma_contexts_update(cs.drop_last(), i, t);
        assert(n.drop_last() =~= cs.drop_last().update(i, (cs[i].0, t)));
        assert(n.last() == cs.last());
        assert(cs[i].0 != cs.last().0);
        assert(contexts_map(n) =~= contexts_map(cs).insert(cs[i].0, t));
    }
}

proof fn lemma_contexts_remove(cs: Seq<(Seq<u8>, Seq<(NameView, BoundView)>)>, i: int)
    requires
        keys_unique(cs),
        0 <= i < cs.len(),
    ensures
        keys_unique(cs.remove(i)),
        contexts_map(cs.remove(i)) == contexts_map(cs).remove(cs[i].0),
    decreases cs.len(),
{
    let n = cs.remove(i);
    assert forall|a: int, b: int| 0 <= a < b < n.len() implies #[trigger] n[a].0 != #[trigger] n[b].0 by {
        let x = if a < i {
            a
        } else {
            a + 1
        };
        let y = if b < i {
            b
        } else {
            b + 1
        };
        assert(n[a] == cs[x] && n[b] == cs[y]);
    }
    lemma_unique_drop_last(cs);
    lemma_contexts_index(cs.drop_last());
    if i == cs.len() - 1 {
        assert(n =~= cs.drop_last());
        assert forall|k: Seq<u8>| contexts_map(cs.drop_last()).contains_key(k) implies k != cs[i].0 by {
            let j = choose|j: int| 0 <= j < cs.drop_last().len() && #[trigger] cs.drop_last()[j].0 == k;
            assert(cs.drop_last()[j] == cs[j]);
        }
        assert(contexts_map(n) =~= contexts_map(cs).remove(cs[i].0));
    } else {
        lemma_contexts_remove(cs.drop_last(), i);
        assert(n.drop_last() =~= cs.drop_last().remove(i));
        assert(n.last() == cs.last());
        assert(cs[i].0 != cs.last().0);
        assert(contexts_map(n) =~= contexts_map(cs).remove(cs[i].0));
    }
}

proof fn lemma_contexts_push(cs: Seq<(Seq<u8>, Seq<(NameView, BoundView)>)>, k: Seq<u8>, t: Seq<(NameView, BoundView)>)
    requires
        keys_unique(cs),
        !contexts_map(cs).contains_key(k),
    ensures
        keys_unique(cs.push((k, t))),
        contexts_map(cs.push((k, t))) == contexts_map(cs).insert(k, t),
{
    lemma_contexts_index(cs);
    let n = cs.push((k, t));
    assert forall|a: int, b: int| 0 <= a < b < n.len() implies #[trigger] n[a].0 != #[trigger] n[b].0 by {
        if b == cs.len() {
            assert(n[a] == cs[a]);
        } else {
            assert(n[a] == cs[a] && n[b] == cs[b]);
        }
    }
    assert(n.drop_last() =~= cs);
}


// ─────────────────────────────────────────────────────────────────────────────
// The servant as values
// ─────────────────────────────────────────────────────────────────────────────

/// What the servant holds: the address its references point at, the root
/// context's key, every context by key, and how many contexts it has minted.
pub struct ServerView {
    pub host: Seq<char>,
    pub port: u16,
    pub root: Seq<u8>,
    pub contexts: Map<Seq<u8>, Seq<(NameView, BoundView)>>,
    pub minted: nat,
}

/// Every context's bindings are in name order.
pub open spec fn tables_sorted(v: ServerView) -> bool {
    forall|k: Seq<u8>| v.contexts.contains_key(k) ==> bindings_sorted(#[trigger] v.contexts[k])
}

/// `s` holding `cs` as its contexts.
pub open spec fn with_contexts(s: ServerView, cs: Map<Seq<u8>, Seq<(NameView, BoundView)>>) -> ServerView {
    ServerView { host: s.host, port: s.port, root: s.root, contexts: cs, minted: s.minted }
}

/// What the four binding operations do with a name that is already taken.
#[derive(Debug, Clone, Copy, PartialEq, Eq, Structural)]
pub enum Replace {
    /// `bind` and `bind_context`: a taken name is `AlreadyBound`.
    Never,
    /// `rebind`: replaces an object; a context under the name is
    /// `NotFound` with `not_object`.
    ObjectOnly,
    /// `rebind_context`: replaces a context; an object under the name is
    /// `NotFound` with `not_context`.
    ContextOnly,
}

pub open spec fn not_found(why: u32, rest: Seq<NameView>) -> RaiseView {
    RaiseView::User(UserExcView::NotFound { why, rest })
}

pub open spec fn object_not_exist() -> RaiseView {
    RaiseView::System(SystemExc::ObjectNotExist)
}

/// Resolution of `name[i..]` from context `ctx`, up to the context that
/// holds the last component.
pub open spec fn walk_from(
    cs: Map<Seq<u8>, Seq<(NameView, BoundView)>>,
    ctx: Seq<u8>,
    name: Seq<NameView>,
    i: int,
) -> Result<Seq<u8>, RaiseView>
    decreases name.len() - 1 - i,
{
    if i < 0 || i + 1 >= name.len() {
        Ok(ctx)
    } else if !cs.contains_key(ctx) {
        Err(object_not_exist())
    } else {
        match binding_of(cs[ctx], name[i]) {
            None => Err(not_found(WHY_MISSING_NODE, name.skip(i))),
            Some(BoundView::Object(_)) => Err(not_found(WHY_NOT_CONTEXT, name.skip(i))),
            Some(BoundView::Context(k)) => walk_from(cs, k, name, i + 1),
        }
    }
}

/// The context that holds the last component of `name`, walking from
/// `start`; an empty name is `InvalidName`.
pub open spec fn walk(cs: Map<Seq<u8>, Seq<(NameView, BoundView)>>, start: Seq<u8>, name: Seq<NameView>) -> Result<
    Seq<u8>,
    RaiseView,
> {
    if name.len() == 0 {
        Err(RaiseView::User(UserExcView::InvalidName))
    } else {
        walk_from(cs, start, name, 0)
    }
}

/// What `name` resolves to from `start`.
pub open spec fn resolve_in(cs: Map<Seq<u8>, Seq<(NameView, BoundView)>>, start: Seq<u8>, name: Seq<NameView>) -> Result<
    BoundView,
    RaiseView,
> {
    match walk(cs, start, name) {
        Err(e) => Err(e),
        Ok(ctx) => if !cs.contains_key(ctx) {
            Err(object_not_exist())
        } else {
            match binding_of(cs[ctx], name.last()) {
                None => Err(not_found(WHY_MISSING_NODE, seq![name.last()])),
                Some(b) => Ok(b),
            }
        },
    }
}

/// The contexts after binding `name` to `to` from `start`.
pub open spec fn bind_in(
    cs: Map<Seq<u8>, Seq<(NameView, BoundView)>>,
    start: Seq<u8>,
    name: Seq<NameView>,
    to: BoundView,
    replace: Replace,
) -> Result<Map<Seq<u8>, Seq<(NameView, BoundView)>>, RaiseView> {
    match walk(cs, start, name) {
        Err(e) => Err(e),
        Ok(ctx) => if !cs.contains_key(ctx) {
            Err(object_not_exist())
        } else {
            let last = name.last();
            let bound = Ok(cs.insert(ctx, with_binding(cs[ctx], last, to)));
            match binding_of(cs[ctx], last) {
                None => bound,
                Some(b) => match replace {
                    Replace::Never => Err(RaiseView::User(UserExcView::AlreadyBound)),
                    Replace::ObjectOnly => if b is Context {
                        Err(not_found(WHY_NOT_OBJECT, seq![last]))
                    } else {
                        bound
                    },
                    Replace::ContextOnly => if b is Object {
                        Err(not_found(WHY_NOT_CONTEXT, seq![last]))
                    } else {
                        bound
                    },
                },
            }
        },
    }
}

/// The contexts after unbinding `name` from `start`.
pub open spec fn unbind_in(cs: Map<Seq<u8>, Seq<(NameView, BoundView)>>, start: Seq<u8>, name: Seq<NameView>) -> Result<
    Map<Seq<u8>, Seq<(NameView, BoundView)>>,
    RaiseView,
> {
    match walk(cs, start, name) {
        Err(e) => Err(e),
        Ok(ctx) => if !cs.contains_key(ctx) {
            Err(object_not_exist())
        } else {
            match binding_of(cs[ctx], name.last()) {
                None => Err(not_found(WHY_MISSING_NODE, seq![name.last()])),
                Some(_) => Ok(cs.insert(ctx, without_binding(cs[ctx], name.last()))),
            }
        },
    }
}

/// `/_ctx`, between the root key and a minted context's number.
pub open spec fn ctx_infix() -> Seq<u8> {
    seq![47u8, 95u8, 99u8, 116u8, 120u8]
}

/// The key of the `n`th minted context.
pub open spec fn minted_key(root: Seq<u8>, n: nat) -> Seq<u8> {
    root + ctx_infix() + decimal(n)
}

/// A new empty context: the contexts with it, the new count, and its key.
/// The count cannot pass `u64::MAX`.
pub open spec fn mint(s: ServerView) -> Result<(Map<Seq<u8>, Seq<(NameView, BoundView)>>, nat, Seq<u8>), RaiseView> {
    if s.minted >= u64::MAX {
        Err(RaiseView::System(SystemExc::Internal))
    } else {
        let n = (s.minted + 1) as nat;
        let k = minted_key(s.root, n);
        Ok((s.contexts.insert(k, Seq::empty()), n, k))
    }
}

/// A new context bound under `name` from `start`; a taken name is refused
/// before anything is minted.
pub open spec fn bind_new_context_in(s: ServerView, start: Seq<u8>, name: Seq<NameView>) -> Result<
    (Map<Seq<u8>, Seq<(NameView, BoundView)>>, nat, Seq<u8>),
    RaiseView,
> {
    match walk(s.contexts, start, name) {
        Err(e) => Err(e),
        Ok(ctx) => if !s.contexts.contains_key(ctx) {
            Err(object_not_exist())
        } else if binding_of(s.contexts[ctx], name.last()) is Some {
            Err(RaiseView::User(UserExcView::AlreadyBound))
        } else {
            match mint(s) {
                Err(e) => Err(e),
                Ok((cs, n, k)) => Ok(
                    (cs.insert(ctx, with_binding(cs[ctx], name.last(), BoundView::Context(k))), n, k),
                ),
            }
        },
    }
}

/// The contexts after destroying the one behind `key`, which must be empty.
pub open spec fn destroy_in(cs: Map<Seq<u8>, Seq<(NameView, BoundView)>>, key: Seq<u8>) -> Result<
    Map<Seq<u8>, Seq<(NameView, BoundView)>>,
    RaiseView,
> {
    if !cs.contains_key(key) {
        Err(object_not_exist())
    } else if cs[key].len() != 0 {
        Err(RaiseView::User(UserExcView::NotEmpty))
    } else {
        Ok(cs.remove(key))
    }
}

/// The object key of the first profile addressed at `host:port` whose key
/// names a context of `cs`.
pub open spec fn first_local(
    ps: Seq<ProfileView>,
    host: Seq<char>,
    port: u16,
    cs: Map<Seq<u8>, Seq<(NameView, BoundView)>>,
) -> Option<Seq<u8>>
    decreases ps.len(),
{
    if ps.len() == 0 {
        None
    } else if ps[0].host == host && ps[0].port == port && cs.contains_key(ps[0].object_key) {
        Some(ps[0].object_key)
    } else {
        first_local(ps.drop_first(), host, port, cs)
    }
}

/// The reference to a context of this servant: the `Ext` interface, one
/// IIOP 1.2 profile at `host:port` with the context's key, publishing the
/// server's code sets.
pub open spec fn ior_for(host: Seq<char>, port: u16, key: Seq<u8>) -> IorView {
    IorView {
        type_id: NAMING_CONTEXT_EXT_ID@,
        profiles: seq![
            ProfileView {
                version: Version { major: 1, minor: 2 },
                host,
                port,
                object_key: key,
                components: seq![crate::codeset::server_component_spec()],
            },
        ],
    }
}

/// The reference a resolved binding hands back.
pub open spec fn bound_ior(host: Seq<char>, port: u16, b: BoundView) -> IorView {
    match b {
        BoundView::Object(ior) => ior,
        BoundView::Context(k) => ior_for(host, port, k),
    }
}

/// The nil reference: no type id, no profiles.
pub open spec fn nil_view() -> IorView {
    IorView { type_id: Seq::empty(), profiles: Seq::empty() }
}

/// `BindingType` on the wire.
pub open spec fn binding_type(b: BoundView) -> u32 {
    match b {
        BoundView::Object(_) => BINDING_OBJECT,
        BoundView::Context(_) => BINDING_CONTEXT,
    }
}

/// Bindings as `list` writes them: each a one-component name, then its type.
pub open spec fn put_bindings(e: EncoderView, t: Seq<(NameView, BoundView)>) -> EncoderView
    decreases t.len(),
{
    if t.len() == 0 {
        e
    } else {
        put_name(put_bindings(e, t.drop_last()), seq![t.last().0]).put_u32(binding_type(t.last().1))
    }
}

// ─────────────────────────────────────────────────────────────────────────────
// The servant
// ─────────────────────────────────────────────────────────────────────────────

/// An in-memory CosNaming servant serving a whole context tree. The root is
/// the key it was made with; every minted context is a further key.
#[derive(Debug)]
pub struct NamingServer {
    host: String,
    port: u16,
    root: Vec<u8>,
    contexts: Vec<(Vec<u8>, Vec<Entry>)>,
    minted: u64,
}

spec fn contexts_seq(cs: Seq<(Vec<u8>, Vec<Entry>)>) -> Seq<(Seq<u8>, Seq<(NameView, BoundView)>)> {
    cs.map_values(|c: (Vec<u8>, Vec<Entry>)| (c.0@, entries_view(c.1@)))
}

impl View for NamingServer {
    type V = ServerView;

    closed spec fn view(&self) -> ServerView {
        ServerView {
            host: self.host@,
            port: self.port,
            root: self.root@,
            contexts: contexts_map(contexts_seq(self.contexts@)),
            minted: self.minted as nat,
        }
    }
}

fn copy_bytes(b: &[u8]) -> (r: Vec<u8>)
    ensures
        r@ == b@,
{
    let mut v: Vec<u8> = Vec::new();
    crate::text::push_all(&mut v, b);
    assert(v@ =~= b@);
    v
}

fn copy_names(name: &[NameComponent], from: usize) -> (r: Vec<NameComponent>)
    requires
        from <= name@.len(),
    ensures
        names_view(r@) == names_view(name@).skip(from as int),
{
    let mut out: Vec<NameComponent> = Vec::new();
    let mut i: usize = from;
    while i < name.len()
        invariant
            from <= i <= name@.len(),
            names_view(out@) == names_view(name@).subrange(from as int, i as int),
        decreases name.len() - i,
    {
        let ghost before = names_view(out@);
        out.push(name[i].duplicate());
        assert(names_view(out@) =~= before.push(name@[i as int]@));
        assert(names_view(name@).subrange(from as int, i + 1) =~= names_view(name@).subrange(
            from as int,
            i as int,
        ).push(name@[i as int]@));
        i = i + 1;
    }
    assert(names_view(name@).subrange(from as int, name@.len() as int) =~= names_view(name@).skip(
        from as int,
    ));
    out
}

fn marshal() -> (r: Raise)
    ensures
        r@ == RaiseView::System(SystemExc::Marshal),
{
    Raise::System(SystemExc::Marshal)
}

impl NamingServer {
    /// Context keys are unique and every context's bindings are in order.
    pub closed spec fn wf(&self) -> bool {
        &&& keys_unique(contexts_seq(self.contexts@))
        &&& tables_sorted(self@)
    }

    /// A naming server rooted at `root_key`, minting references that point
    /// at `host:port`.
    pub fn new(host: &str, port: u16, root_key: Vec<u8>) -> (r: NamingServer)
        ensures
            r.wf(),
            r@.host == host@,
            r@.port == port,
            r@.root == root_key@,
            r@.contexts == Map::<Seq<u8>, Seq<(NameView, BoundView)>>::empty().insert(
                root_key@,
                Seq::empty(),
            ),
            r@.minted == 0,
    {
        let key = copy_bytes(root_key.as_slice());
        let mut contexts: Vec<(Vec<u8>, Vec<Entry>)> = Vec::new();
        contexts.push((key, Vec::new()));
        let r = NamingServer { host: host.to_owned(), port, root: root_key, contexts, minted: 0 };
        proof {
            let cs = contexts_seq(r.contexts@);
            assert(cs.len() == 1);
            assert(cs.drop_last() =~= Seq::<(Seq<u8>, Seq<(NameView, BoundView)>)>::empty());
            assert(cs.last().1 =~= Seq::<(NameView, BoundView)>::empty());
            assert(cs.last().0 == root_key@);
            assert(contexts_map(cs.drop_last()) == Map::<Seq<u8>, Seq<(NameView, BoundView)>>::empty());
            assert(contexts_map(cs) == contexts_map(cs.drop_last()).insert(cs.last().0, cs.last().1));
            assert(r@.contexts =~= Map::<Seq<u8>, Seq<(NameView, BoundView)>>::empty().insert(
                root_key@,
                Seq::empty(),
            ));
        }
        r
    }

    /// The root context's object key.
    pub fn root_key(&self) -> (r: &[u8])
        ensures
            r@ == self@.root,
    {
        self.root.as_slice()
    }

    /// Whether `object_key` names a context this servant answers for.
    pub fn knows(&self, object_key: &[u8]) -> (r: bool)
        requires
            self.wf(),
        ensures
            r == self@.contexts.contains_key(object_key@),
    {
        self.find_context(object_key).is_some()
    }

    /// How many contexts this servant has minted.
    pub fn minted(&self) -> (r: u64)
        ensures
            r == self@.minted,
    {
        self.minted
    }

    /// A reference to the context behind `key` at this server's address.
    fn ior_for(&self, key: &[u8]) -> (r: Ior)
        ensures
            r@ == ior_for(self@.host, self@.port, key@),
    {
        let p = IiopProfile {
            version: Version::v1_2(),
            host: self.host.clone(),
            port: self.port,
            object_key: copy_bytes(key),
            components: vec![crate::codeset::server_component()],
        };
        let mut profiles: Vec<IiopProfile> = Vec::new();
        profiles.push(p);
        let r = Ior { type_id: NAMING_CONTEXT_EXT_ID.to_owned(), profiles };
        proof {
            assert(p@.components =~= seq![crate::codeset::server_component_spec()]);
            assert(r@.profiles =~= seq![p@]);
        }
        r
    }

    /// A publishable reference to the root context.
    pub fn root_ior(&self) -> (r: Ior)
        ensures
            r@ == ior_for(self@.host, self@.port, self@.root),
    {
        self.ior_for(self.root.as_slice())
    }

    /// The reference a resolved binding hands back.
    fn ior_of(&self, b: Bound) -> (r: Ior)
        ensures
            r@ == bound_ior(self@.host, self@.port, b@),
    {
        match b {
            Bound::Object(ior) => ior,
            Bound::Context(k) => self.ior_for(k.as_slice()),
        }
    }

    proof fn lemma_context_at(&self, i: int)
        requires
            self.wf(),
            0 <= i < self.contexts@.len(),
        ensures
            self@.contexts.contains_key(self.contexts@[i].0@),
            self@.contexts[self.contexts@[i].0@] == entries_view(self.contexts@[i].1@),
            bindings_sorted(entries_view(self.contexts@[i].1@)),
    {
        let cs = contexts_seq(self.contexts@);
        lemma_contexts_index(cs);
        assert(cs[i] == (self.contexts@[i].0@, entries_view(self.contexts@[i].1@)));
        assert(cs[i].0 == self.contexts@[i].0@);
        assert(self@.contexts == contexts_map(cs));
        assert(self@.contexts.contains_key(cs[i].0));
    }

    /// The index of the context behind `key`.
    fn find_context(&self, key: &[u8]) -> (r: Option<usize>)
        requires
            self.wf(),
        ensures
            match r {
                Some(i) => i < self.contexts@.len() && self.contexts@[i as int].0@ == key@
                    && self@.contexts.contains_key(key@) && self@.contexts[key@] == entries_view(
                    self.contexts@[i as int].1@,
                ) && bindings_sorted(entries_view(self.contexts@[i as int].1@)),
                None => !self@.contexts.contains_key(key@),
            },
    {
        let ghost cs = contexts_seq(self.contexts@);
        let mut i: usize = 0;
        while i < self.contexts.len()
            invariant
                i <= self.contexts@.len(),
                self.wf(),
                cs == contexts_seq(self.contexts@),
                forall|j: int| 0 <= j < i ==> (#[trigger] cs[j]).0 != key@,
            decreases self.contexts.len() - i,
        {
            if bytes_eq(self.contexts[i].0.as_slice(), key) {
                proof {
                    self.lemma_context_at(i as int);
                }
                return Some(i);
            }
            assert(cs[i as int].0 == self.contexts@[i as int].0@);
            i = i + 1;
        }
        proof {
            lemma_contexts_index(cs);
            if self@.contexts.contains_key(key@) {
                let j = choose|j: int| 0 <= j < cs.len() && #[trigger] cs[j].0 == key@;
                assert(cs[j].0 != key@);
            }
        }
        None
    }
}


impl NamingServer {
    /// Binds `k` to `v` in the context at index `i`.
    fn put_in_context(&mut self, i: usize, k: NameComponent, v: Bound)
        requires
            old(self).wf(),
            i < old(self).contexts@.len(),
        ensures
            final(self).wf(),
            final(self)@ == with_contexts(
                old(self)@,
                old(self)@.contexts.insert(
                    old(self).contexts@[i as int].0@,
                    with_binding(old(self)@.contexts[old(self).contexts@[i as int].0@], k@, v@),
                ),
            ),
    {
        proof {
            old(self).lemma_context_at(i as int);
        }
        let ghost ocs = contexts_seq(self.contexts@);
        let ghost kv = k@;
        let ghost vv = v@;
        let (key, mut t) = self.contexts.remove(i);
        let ghost key_v = key@;
        let ghost tv0 = entries_view(t@);
        put_binding(&mut t, k, v);
        let ghost tv = entries_view(t@);
        self.contexts.insert(i, (key, t));
        proof {
            assert(self.contexts@ =~= old(self).contexts@.update(i as int, (key, t)));
            assert(ocs[i as int] == (key_v, tv0));
            assert(contexts_seq(self.contexts@) =~= ocs.update(i as int, (ocs[i as int].0, tv)));
            lemma_contexts_update(ocs, i as int, tv);
            law_with_binding(tv0, kv, vv);
            assert(self@.contexts =~= old(self)@.contexts.insert(key_v, tv));
        }
    }

    /// Unbinds `k` in the context at index `i`.
    fn remove_in_context(&mut self, i: usize, k: &NameComponent)
        requires
            old(self).wf(),
            i < old(self).contexts@.len(),
        ensures
            final(self).wf(),
            final(self)@ == with_contexts(
                old(self)@,
                old(self)@.contexts.insert(
                    old(self).contexts@[i as int].0@,
                    without_binding(old(self)@.contexts[old(self).contexts@[i as int].0@], k@),
                ),
            ),
    {
        proof {
            old(self).lemma_context_at(i as int);
        }
        let ghost ocs = contexts_seq(self.contexts@);
        let (key, mut t) = self.contexts.remove(i);
        let ghost key_v = key@;
        let ghost tv0 = entries_view(t@);
        match find_binding(&t, k) {
            Some(j) => {
                t.remove(j);
                assert(entries_view(t@) =~= tv0.remove(j as int));
            },
            None => {},
        }
        let ghost tv = entries_view(t@);
        assert(tv == without_binding(tv0, k@));
        self.contexts.insert(i, (key, t));
        proof {
            assert(self.contexts@ =~= old(self).contexts@.update(i as int, (key, t)));
            assert(ocs[i as int] == (key_v, tv0));
            assert(contexts_seq(self.contexts@) =~= ocs.update(i as int, (ocs[i as int].0, tv)));
            lemma_contexts_update(ocs, i as int, tv);
            law_without_binding(tv0, k@);
            assert(self@.contexts =~= old(self)@.contexts.insert(key_v, tv));
        }
    }

    /// The context that holds the last component of `name`.
    fn walk(&self, start: &[u8], name: &[NameComponent]) -> (r: Result<Vec<u8>, Raise>)
        requires
            self.wf(),
        ensures
            match walk(self@.contexts, start@, names_view(name@)) {
                Ok(c) => r matches Ok(v) && v@ == c,
                Err(e) => r matches Err(x) && x@ == e,
            },
    {
        let ghost nv = names_view(name@);
        if name.len() == 0 {
            return Err(Raise::User(UserExc::InvalidName));
        }
        let mut ctx = copy_bytes(start);
        let mut i: usize = 0;
        while i + 1 < name.len()
            invariant
                self.wf(),
                nv == names_view(name@),
                name@.len() > 0,
                i + 1 <= name@.len(),
                walk(self@.contexts, start@, nv) == walk_from(self@.contexts, ctx@, nv, i as int),
            decreases name.len() - i,
        {
            let ci = match self.find_context(ctx.as_slice()) {
                None => return Err(Raise::System(SystemExc::ObjectNotExist)),
                Some(ci) => ci,
            };
            let t = &self.contexts[ci].1;
            assert(nv[i as int] == name@[i as int]@);
            match find_binding(t, &name[i]) {
                None => {
                    let rest = copy_names(name, i);
                    return Err(Raise::User(UserExc::NotFound { why: WHY_MISSING_NODE, rest }));
                },
                Some(j) => match &t[j].bound {
                    Bound::Object(_) => {
                        let rest = copy_names(name, i);
                        return Err(Raise::User(UserExc::NotFound { why: WHY_NOT_CONTEXT, rest }));
                    },
                    Bound::Context(k) => {
                        ctx = copy_bytes(k.as_slice());
                    },
                },
            }
            i = i + 1;
        }
        Ok(ctx)
    }

    /// What `name` resolves to from `start`.
    fn resolve_from(&self, start: &[u8], name: &[NameComponent]) -> (r: Result<Bound, Raise>)
        requires
            self.wf(),
        ensures
            match resolve_in(self@.contexts, start@, names_view(name@)) {
                Ok(b) => r matches Ok(v) && v@ == b,
                Err(e) => r matches Err(x) && x@ == e,
            },
    {
        let ctx = self.walk(start, name)?;
        let ci = match self.find_context(ctx.as_slice()) {
            None => return Err(Raise::System(SystemExc::ObjectNotExist)),
            Some(ci) => ci,
        };
        let last = &name[name.len() - 1];
        assert(names_view(name@).last() == last@);
        match find_binding(&self.contexts[ci].1, last) {
            None => {
                let rest = copy_names(name, name.len() - 1);
                assert(names_view(name@).skip(name@.len() - 1) =~= seq![last@]);
                Err(Raise::User(UserExc::NotFound { why: WHY_MISSING_NODE, rest }))
            },
            Some(j) => Ok(self.contexts[ci].1[j].bound.duplicate()),
        }
    }

    /// Binds `name` to `to` from `start`; `replace` says what a taken name
    /// allows.
    fn bind_from(&mut self, start: &[u8], name: &[NameComponent], to: Bound, replace: Replace) -> (r:
        Result<(), Raise>)
        requires
            old(self).wf(),
        ensures
            final(self).wf(),
            match bind_in(old(self)@.contexts, start@, names_view(name@), to@, replace) {
                Ok(cs) => r is Ok && final(self)@ == with_contexts(old(self)@, cs),
                Err(e) => r matches Err(x) && x@ == e && final(self)@ == old(self)@,
            },
    {
        let ctx = self.walk(start, name)?;
        let ci = match self.find_context(ctx.as_slice()) {
            None => return Err(Raise::System(SystemExc::ObjectNotExist)),
            Some(ci) => ci,
        };
        let last = &name[name.len() - 1];
        assert(names_view(name@).last() == last@);
        match find_binding(&self.contexts[ci].1, last) {
            None => {},
            Some(j) => {
                let occupied_by_context = match &self.contexts[ci].1[j].bound {
                    Bound::Context(_) => true,
                    Bound::Object(_) => false,
                };
                match replace {
                    Replace::Never => return Err(Raise::User(UserExc::AlreadyBound)),
                    Replace::ObjectOnly => {
                        if occupied_by_context {
                            let rest = copy_names(name, name.len() - 1);
                            assert(names_view(name@).skip(name@.len() - 1) =~= seq![last@]);
                            return Err(
                                Raise::User(UserExc::NotFound { why: WHY_NOT_OBJECT, rest }),
                            );
                        }
                    },
                    Replace::ContextOnly => {
                        if !occupied_by_context {
                            let rest = copy_names(name, name.len() - 1);
                            assert(names_view(name@).skip(name@.len() - 1) =~= seq![last@]);
                            return Err(
                                Raise::User(UserExc::NotFound { why: WHY_NOT_CONTEXT, rest }),
                            );
                        }
                    },
                }
            },
        }
        let k = last.duplicate();
        self.put_in_context(ci, k, to);
        Ok(())
    }

    /// Unbinds `name` from `start`. Unbinding a context does not destroy it.
    fn unbind_from(&mut self, start: &[u8], name: &[NameComponent]) -> (r: Result<(), Raise>)
        requires
            old(self).wf(),
        ensures
            final(self).wf(),
            match unbind_in(old(self)@.contexts, start@, names_view(name@)) {
                Ok(cs) => r is Ok && final(self)@ == with_contexts(old(self)@, cs),
                Err(e) => r matches Err(x) && x@ == e && final(self)@ == old(self)@,
            },
    {
        let ctx = self.walk(start, name)?;
        let ci = match self.find_context(ctx.as_slice()) {
            None => return Err(Raise::System(SystemExc::ObjectNotExist)),
            Some(ci) => ci,
        };
        let last = &name[name.len() - 1];
        assert(names_view(name@).last() == last@);
        match find_binding(&self.contexts[ci].1, last) {
            None => {
                let rest = copy_names(name, name.len() - 1);
                assert(names_view(name@).skip(name@.len() - 1) =~= seq![last@]);
                Err(Raise::User(UserExc::NotFound { why: WHY_MISSING_NODE, rest }))
            },
            Some(_) => {
                self.remove_in_context(ci, last);
                Ok(())
            },
        }
    }
}


impl NamingServer {
    /// Sets the context behind `key` to an empty table, adding it if new.
    fn put_empty_context(&mut self, key: Vec<u8>)
        requires
            old(self).wf(),
        ensures
            final(self).wf(),
            final(self)@ == with_contexts(old(self)@, old(self)@.contexts.insert(key@, Seq::empty())),
            final(self).minted == old(self).minted,
    {
        let ghost ocs = contexts_seq(self.contexts@);
        let ghost kv = key@;
        let ghost empty = Seq::<(NameView, BoundView)>::empty();
        match self.find_context(key.as_slice()) {
            Some(i) => {
                let fresh: Vec<Entry> = Vec::new();
                assert(entries_view(fresh@) =~= empty);
                self.contexts.set(i, (key, fresh));
                proof {
                    assert(contexts_seq(self.contexts@) =~= ocs.update(i as int, (ocs[i as int].0, empty)));
                    lemma_contexts_update(ocs, i as int, empty);
                }
            },
            None => {
                let fresh: Vec<Entry> = Vec::new();
                assert(entries_view(fresh@) =~= empty);
                self.contexts.push((key, fresh));
                proof {
                    assert(contexts_seq(self.contexts@) =~= ocs.push((kv, empty)));
                    lemma_contexts_push(ocs, kv, empty);
                }
            },
        }
        proof {
            assert(self@.contexts =~= old(self)@.contexts.insert(kv, empty));
            assert forall|k: Seq<u8>| self@.contexts.contains_key(k) implies bindings_sorted(
                #[trigger] self@.contexts[k],
            ) by {
                if k != kv {
                    assert(old(self)@.contexts.contains_key(k));
                }
            }
        }
    }

    /// Creates an unbound context and returns its fresh key.
    fn mint_context(&mut self) -> (r: Result<Vec<u8>, Raise>)
        requires
            old(self).wf(),
        ensures
            final(self).wf(),
            match mint(old(self)@) {
                Ok((cs, n, k)) => r matches Ok(v) && v@ == k && final(self)@ == (ServerView {
                    host: old(self)@.host,
                    port: old(self)@.port,
                    root: old(self)@.root,
                    contexts: cs,
                    minted: n,
                }),
                Err(e) => r matches Err(x) && x@ == e && final(self)@ == old(self)@,
            },
    {
        if self.minted == u64::MAX {
            return Err(Raise::System(SystemExc::Internal));
        }
        let n = self.minted + 1;
        let mut key = copy_bytes(self.root.as_slice());
        key.push(47u8);
        key.push(95u8);
        key.push(99u8);
        key.push(116u8);
        key.push(120u8);
        let digits = decimal_bytes(n);
        crate::text::push_all(&mut key, digits.as_slice());
        assert(key@ =~= minted_key(self.root@, n as nat));
        self.minted = n;
        let copy = copy_bytes(key.as_slice());
        self.put_empty_context(copy);
        Ok(key)
    }

    /// Binds a fresh context under `name` from `start`.
    fn bind_new_context_from(&mut self, start: &[u8], name: &[NameComponent]) -> (r: Result<
        Vec<u8>,
        Raise,
    >)
        requires
            old(self).wf(),
        ensures
            final(self).wf(),
            match bind_new_context_in(old(self)@, start@, names_view(name@)) {
                Ok((cs, n, k)) => r matches Ok(v) && v@ == k && final(self)@ == (ServerView {
                    host: old(self)@.host,
                    port: old(self)@.port,
                    root: old(self)@.root,
                    contexts: cs,
                    minted: n,
                }),
                Err(e) => r matches Err(x) && x@ == e && final(self)@ == old(self)@,
            },
    {
        let ctx = self.walk(start, name)?;
        let ci = match self.find_context(ctx.as_slice()) {
            None => return Err(Raise::System(SystemExc::ObjectNotExist)),
            Some(ci) => ci,
        };
        let last = &name[name.len() - 1];
        assert(names_view(name@).last() == last@);
        if find_binding(&self.contexts[ci].1, last).is_some() {
            return Err(Raise::User(UserExc::AlreadyBound));
        }
        let key = self.mint_context()?;
        let ci2 = match self.find_context(ctx.as_slice()) {
            None => return Err(Raise::System(SystemExc::ObjectNotExist)),
            Some(ci2) => ci2,
        };
        let bound = Bound::Context(copy_bytes(key.as_slice()));
        self.put_in_context(ci2, last.duplicate(), bound);
        Ok(key)
    }

    /// Retires the context behind `key`, which must be empty. The bindings
    /// that name it stay.
    fn destroy(&mut self, key: &[u8]) -> (r: Result<(), Raise>)
        requires
            old(self).wf(),
        ensures
            final(self).wf(),
            match destroy_in(old(self)@.contexts, key@) {
                Ok(cs) => r is Ok && final(self)@ == with_contexts(old(self)@, cs),
                Err(e) => r matches Err(x) && x@ == e && final(self)@ == old(self)@,
            },
    {
        let i = match self.find_context(key) {
            None => return Err(Raise::System(SystemExc::ObjectNotExist)),
            Some(i) => i,
        };
        if self.contexts[i].1.len() != 0 {
            return Err(Raise::User(UserExc::NotEmpty));
        }
        let ghost ocs = contexts_seq(self.contexts@);
        self.contexts.remove(i);
        proof {
            assert(contexts_seq(self.contexts@) =~= ocs.remove(i as int));
            lemma_contexts_remove(ocs, i as int);
            assert(ocs[i as int].0 == key@);
            assert(self@.contexts =~= old(self)@.contexts.remove(key@));
            assert forall|k: Seq<u8>| self@.contexts.contains_key(k) implies bindings_sorted(
                #[trigger] self@.contexts[k],
            ) by {
                assert(old(self)@.contexts.contains_key(k));
            }
        }
        Ok(())
    }

    /// The object key of a context this servant serves, if `ior` names one
    /// at this server's own address.
    fn local_context_key(&self, ior: &Ior) -> (r: Option<Vec<u8>>)
        requires
            self.wf(),
        ensures
            match first_local(ior@.profiles, self@.host, self@.port, self@.contexts) {
                Some(k) => r matches Some(v) && v@ == k,
                None => r is None,
            },
    {
        let ghost ps = ior@.profiles;
        let mut i: usize = 0;
        assert(ps.skip(0) =~= ps);
        while i < ior.profiles.len()
            invariant
                self.wf(),
                ps == ior@.profiles,
                i <= ps.len(),
                first_local(ps, self@.host, self@.port, self@.contexts) == first_local(
                    ps.skip(i as int),
                    self@.host,
                    self@.port,
                    self@.contexts,
                ),
            decreases ior.profiles.len() - i,
        {
            let p = &ior.profiles[i];
            assert(ps.skip(i as int)[0] == p@);
            if p.host == self.host && p.port == self.port && self.find_context(
                p.object_key.as_slice(),
            ).is_some() {
                return Some(copy_bytes(p.object_key.as_slice()));
            }
            assert(ps.skip(i as int).drop_first() =~= ps.skip(i + 1));
            i = i + 1;
        }
        None
    }

    /// Writes at most `how_many` bindings of the context behind `key`, in
    /// name order, then a nil iterator.
    fn list(&self, key: &[u8], how_many: u32, out: &mut Encoder) -> (r: Result<(), Raise>)
        requires
            self.wf(),
        ensures
            !self@.contexts.contains_key(key@) ==> (r matches Err(x) && x@ == object_not_exist()
                && final(out)@ == old(out)@),
            self@.contexts.contains_key(key@) ==> r is Ok && final(out)@ == list_encoding(
                old(out)@,
                self@.contexts[key@],
                how_many,
            ),
    {
        let ci = match self.find_context(key) {
            None => return Err(Raise::System(SystemExc::ObjectNotExist)),
            Some(ci) => ci,
        };
        let t = &self.contexts[ci].1;
        let ghost tv = entries_view(t@);
        let take: usize = if (how_many as usize) < t.len() {
            how_many as usize
        } else {
            t.len()
        };
        out.put_u32(take as u32);
        let ghost start = out@;
        let mut j: usize = 0;
        assert(tv.take(0) =~= Seq::<(NameView, BoundView)>::empty());
        while j < take
            invariant
                take <= t@.len(),
                tv == entries_view(t@),
                j <= take,
                out@ == put_bindings(start, tv.take(j as int)),
            decreases take - j,
        {
            let mut one: Vec<NameComponent> = Vec::new();
            one.push(t[j].name.duplicate());
            write_name(out, one.as_slice());
            let kind: u32 = match &t[j].bound {
                Bound::Object(_) => BINDING_OBJECT,
                Bound::Context(_) => BINDING_CONTEXT,
            };
            out.put_u32(kind);
            proof {
                assert(names_view(one@) =~= seq![tv[j as int].0]);
                assert(tv.take(j + 1).drop_last() =~= tv.take(j as int));
                assert(tv.take(j + 1).last() == tv[j as int]);
            }
            j = j + 1;
        }
        let nil = Ior { type_id: String::new(), profiles: Vec::new() };
        assert(nil@.profiles =~= Seq::<ProfileView>::empty());
        assert(nil@.type_id =~= Seq::<char>::empty());
        assert(nil@ == nil_view());
        match nil.write_to(out) {
            Ok(()) => Ok(()),
            Err(_) => Err(marshal()),
        }
    }
}

/// What `list` writes for a table and a `how_many`.
pub open spec fn list_encoding(out: EncoderView, t: Seq<(NameView, BoundView)>, how_many: u32) -> EncoderView {
    let take = if (how_many as int) < t.len() {
        how_many as int
    } else {
        t.len() as int
    };
    ior_encoding(put_bindings(out.put_u32(take as u32), t.take(take)), nil_view())
}


// ─────────────────────────────────────────────────────────────────────────────
// Operations
// ─────────────────────────────────────────────────────────────────────────────

/// What a failed URL build raises: a bad address is `InvalidAddress`, a
/// bad name `InvalidName`, and a URL that does not read back as its name is
/// this servant's own defect.
pub open spec fn url_raise(k: UrlErrorKind) -> RaiseView {
    match k {
        UrlErrorKind::BadAddress => RaiseView::User(UserExcView::InvalidAddress),
        UrlErrorKind::BadSchemeName => RaiseView::User(UserExcView::InvalidName),
        UrlErrorKind::BadSchemeSpecificPart => RaiseView::User(UserExcView::InvalidName),
        UrlErrorKind::Other => RaiseView::System(SystemExc::Internal),
    }
}

/// An operation's answer: its result, the servant after it, and the
/// output stream after it.
pub open spec fn marshal_reply(s: ServerView, out: EncoderView) -> (Result<(), RaiseView>, ServerView, EncoderView) {
    (Err(RaiseView::System(SystemExc::Marshal)), s, out)
}

pub open spec fn invalid_reply(s: ServerView, out: EncoderView) -> (Result<(), RaiseView>, ServerView, EncoderView) {
    (Err(RaiseView::User(UserExcView::InvalidName)), s, out)
}

/// A resolution's answer: the reference of what `name` is bound to.
pub open spec fn resolve_reply(s: ServerView, key: Seq<u8>, name: Seq<NameView>, out: EncoderView) -> (
    Result<(), RaiseView>,
    ServerView,
    EncoderView,
) {
    match resolve_in(s.contexts, key, name) {
        Err(e) => (Err(e), s, out),
        Ok(b) => (Ok(()), s, ior_encoding(out, bound_ior(s.host, s.port, b))),
    }
}

/// A change of the tree's answer: nothing written.
pub open spec fn change_reply(
    s: ServerView,
    r: Result<Map<Seq<u8>, Seq<(NameView, BoundView)>>, RaiseView>,
    out: EncoderView,
) -> (Result<(), RaiseView>, ServerView, EncoderView) {
    match r {
        Err(e) => (Err(e), s, out),
        Ok(cs) => (Ok(()), with_contexts(s, cs), out),
    }
}

/// A new context's answer: its reference.
pub open spec fn minted_reply(
    s: ServerView,
    r: Result<(Map<Seq<u8>, Seq<(NameView, BoundView)>>, nat, Seq<u8>), RaiseView>,
    out: EncoderView,
) -> (Result<(), RaiseView>, ServerView, EncoderView) {
    match r {
        Err(e) => (Err(e), s, out),
        Ok((cs, n, k)) => (
            Ok(()),
            ServerView { host: s.host, port: s.port, root: s.root, contexts: cs, minted: n },
            ior_encoding(out, ior_for(s.host, s.port, k)),
        ),
    }
}

/// `_is_a`: whether the id is one of the two naming interfaces or `Object`.
#[verifier::opaque]
pub open spec fn is_a_reply(s: ServerView, d: DecoderView, out: EncoderView) -> (Result<(), RaiseView>, ServerView, EncoderView) {
    match d.get_string() {
        Err(_) => marshal_reply(s, out),
        Ok((id, _)) => (
            Ok(()),
            s,
            out.put_bool(
                id == NAMING_CONTEXT_EXT_ID@ || id == NAMING_CONTEXT_ID@ || id == CORBA_OBJECT_ID@,
            ),
        ),
    }
}

/// `bind`/`rebind`: a name, then an object reference.
#[verifier::opaque]
pub open spec fn bind_reply(s: ServerView, key: Seq<u8>, d: DecoderView, out: EncoderView, rebind: bool) -> (
    Result<(), RaiseView>,
    ServerView,
    EncoderView,
) {
    match read_name_wire(d) {
        Err(_) => marshal_reply(s, out),
        Ok((w, d2)) => match read_ior_wire(d2) {
            Err(_) => marshal_reply(s, out),
            Ok((iw, _)) => change_reply(
                s,
                bind_in(
                    s.contexts,
                    key,
                    names_of(w),
                    BoundView::Object(ior_of_wire(iw)),
                    if rebind {
                        Replace::ObjectOnly
                    } else {
                        Replace::Never
                    },
                ),
                out,
            ),
        },
    }
}

/// `bind_context`/`rebind_context`: a name, then a context this servant
/// must serve.
#[verifier::opaque]
pub open spec fn bind_context_reply(s: ServerView, key: Seq<u8>, d: DecoderView, out: EncoderView, rebind: bool) -> (
    Result<(), RaiseView>,
    ServerView,
    EncoderView,
) {
    match read_name_wire(d) {
        Err(_) => marshal_reply(s, out),
        Ok((w, d2)) => match read_ior_wire(d2) {
            Err(_) => marshal_reply(s, out),
            Ok((iw, _)) => match first_local(ior_of_wire(iw).profiles, s.host, s.port, s.contexts) {
                None => (Err(RaiseView::System(SystemExc::NoImplement)), s, out),
                Some(k) => change_reply(
                    s,
                    bind_in(
                        s.contexts,
                        key,
                        names_of(w),
                        BoundView::Context(k),
                        if rebind {
                            Replace::ContextOnly
                        } else {
                            Replace::Never
                        },
                    ),
                    out,
                ),
            },
        },
    }
}

/// `list`: a `how_many`, then the bindings and a nil iterator.
#[verifier::opaque]
pub open spec fn list_reply(s: ServerView, key: Seq<u8>, d: DecoderView, out: EncoderView) -> (
    Result<(), RaiseView>,
    ServerView,
    EncoderView,
) {
    match d.get_u32() {
        Err(_) => marshal_reply(s, out),
        Ok((n, _)) => if !s.contexts.contains_key(key) {
            (Err(object_not_exist()), s, out)
        } else {
            (Ok(()), s, list_encoding(out, s.contexts[key], n))
        },
    }
}

/// `to_name`: the stringified name parsed, written as a `Name`.
#[verifier::opaque]
pub open spec fn to_name_reply(s: ServerView, d: DecoderView, out: EncoderView) -> (Result<(), RaiseView>, ServerView, EncoderView) {
    match d.get_string() {
        Err(_) => marshal_reply(s, out),
        Ok((t, _)) => match name_spec(t) {
            None => invalid_reply(s, out),
            Some(n) => if n.len() == 0 {
                invalid_reply(s, out)
            } else {
                (Ok(()), s, put_name(out, n))
            },
        },
    }
}

/// `to_string`: a `Name`, written in stringified form.
#[verifier::opaque]
pub open spec fn to_string_reply(s: ServerView, d: DecoderView, out: EncoderView) -> (Result<(), RaiseView>, ServerView, EncoderView) {
    match read_name_wire(d) {
        Err(_) => marshal_reply(s, out),
        Ok((w, _)) => if w.len() == 0 {
            invalid_reply(s, out)
        } else {
            (Ok(()), s, out.put_str(stringify(names_of(w))))
        },
    }
}

/// `to_url`: an address and a stringified name, written as a URL.
#[verifier::opaque]
pub open spec fn to_url_reply(s: ServerView, d: DecoderView, out: EncoderView) -> (Result<(), RaiseView>, ServerView, EncoderView) {
    match d.get_string() {
        Err(_) => marshal_reply(s, out),
        Ok((a, d2)) => match d2.get_string() {
            Err(_) => marshal_reply(s, out),
            Ok((nm, _)) => match to_url_spec(a, nm) {
                Ok(u) => (Ok(()), s, out.put_str(u)),
                Err(k) => (Err(url_raise(k)), s, out),
            },
        },
    }
}

/// `resolve`: a `Name`, resolved from the addressed context.
#[verifier::opaque]
pub open spec fn resolve_op_reply(s: ServerView, key: Seq<u8>, d: DecoderView, out: EncoderView) -> (
    Result<(), RaiseView>,
    ServerView,
    EncoderView,
) {
    match read_name_wire(d) {
        Err(_) => marshal_reply(s, out),
        Ok((w, _)) => resolve_reply(s, key, names_of(w), out),
    }
}

/// `resolve_str`: a stringified name, resolved from the addressed context.
#[verifier::opaque]
pub open spec fn resolve_str_reply(s: ServerView, key: Seq<u8>, d: DecoderView, out: EncoderView) -> (
    Result<(), RaiseView>,
    ServerView,
    EncoderView,
) {
    match d.get_string() {
        Err(_) => marshal_reply(s, out),
        Ok((t, _)) => match name_spec(t) {
            None => invalid_reply(s, out),
            Some(n) => resolve_reply(s, key, n, out),
        },
    }
}

/// `destroy`: the addressed context retired.
#[verifier::opaque]
pub open spec fn destroy_reply(s: ServerView, key: Seq<u8>, out: EncoderView) -> (
    Result<(), RaiseView>,
    ServerView,
    EncoderView,
) {
    change_reply(s, destroy_in(s.contexts, key), out)
}

/// `unbind`: a `Name`, unbound from the addressed context.
#[verifier::opaque]
pub open spec fn unbind_reply(s: ServerView, key: Seq<u8>, d: DecoderView, out: EncoderView) -> (
    Result<(), RaiseView>,
    ServerView,
    EncoderView,
) {
    match read_name_wire(d) {
        Err(_) => marshal_reply(s, out),
        Ok((w, _)) => change_reply(s, unbind_in(s.contexts, key, names_of(w)), out),
    }
}

/// `bind_new_context`: a `Name`, bound to a fresh context.
#[verifier::opaque]
pub open spec fn bind_new_context_reply(s: ServerView, key: Seq<u8>, d: DecoderView, out: EncoderView) -> (
    Result<(), RaiseView>,
    ServerView,
    EncoderView,
) {
    match read_name_wire(d) {
        Err(_) => marshal_reply(s, out),
        Ok((w, _)) => minted_reply(s, bind_new_context_in(s, key, names_of(w)), out),
    }
}

/// `new_context`: a fresh context bound to no name.
#[verifier::opaque]
pub open spec fn new_context_reply(s: ServerView, out: EncoderView) -> (
    Result<(), RaiseView>,
    ServerView,
    EncoderView,
) {
    minted_reply(s, mint(s), out)
}

/// What operation `op` on the context behind `key`, with arguments `d`,
/// answers and does.
#[verifier::opaque]
pub open spec fn handle_spec(s: ServerView, op: Seq<char>, key: Seq<u8>, d: DecoderView, out: EncoderView) -> (
    Result<(), RaiseView>,
    ServerView,
    EncoderView,
) {
    if op == "_is_a"@ {
        is_a_reply(s, d, out)
    } else if op == "_non_existent"@ {
        (Ok(()), s, out.put_bool(false))
    } else if op == "resolve"@ {
        resolve_op_reply(s, key, d, out)
    } else if op == "resolve_str"@ {
        resolve_str_reply(s, key, d, out)
    } else if op == "bind"@ || op == "rebind"@ {
        bind_reply(s, key, d, out, op == "rebind"@)
    } else if op == "bind_context"@ || op == "rebind_context"@ {
        bind_context_reply(s, key, d, out, op == "rebind_context"@)
    } else if op == "destroy"@ {
        destroy_reply(s, key, out)
    } else if op == "unbind"@ {
        unbind_reply(s, key, d, out)
    } else if op == "bind_new_context"@ {
        bind_new_context_reply(s, key, d, out)
    } else if op == "new_context"@ {
        new_context_reply(s, out)
    } else if op == "list"@ {
        list_reply(s, key, d, out)
    } else if op == "to_name"@ {
        to_name_reply(s, d, out)
    } else if op == "to_string"@ {
        to_string_reply(s, d, out)
    } else if op == "to_url"@ {
        to_url_reply(s, d, out)
    } else {
        (Err(RaiseView::System(SystemExc::BadOperation)), s, out)
    }
}

/// Whether a text equals a literal.
fn str_is(s: &str, lit: &str) -> (r: bool)
    ensures
        r == (s@ == lit@),
{
    let c = chars_of(s);
    text_is(c.as_slice(), lit)
}

/// Reads a `Name` argument.
fn read_name_arg(d: &mut Decoder) -> (r: Result<Vec<NameComponent>, Raise>)
    ensures
        match read_name_wire(old(d)@) {
            Ok((w, after)) => r matches Ok(v) && names_view(v@) == names_of(w) && final(d)@ == after,
            Err(_) => r matches Err(x) && x@ == RaiseView::System(SystemExc::Marshal),
        },
{
    match read_name(d) {
        Ok(v) => {
            proof {
                let w = read_name_wire(old(d)@)->Ok_0.0;
                lemma_names_of(names_view(v@), w);
            }
            Ok(v)
        },
        Err(_) => Err(marshal()),
    }
}

/// Reads an object reference argument.
fn read_ior_arg(d: &mut Decoder) -> (r: Result<Ior, Raise>)
    ensures
        match read_ior_wire(old(d)@) {
            Ok((w, after)) => r matches Ok(v) && v@ == ior_of_wire(w) && final(d)@ == after,
            Err(_) => r matches Err(x) && x@ == RaiseView::System(SystemExc::Marshal),
        },
{
    match Ior::read_from(d) {
        Ok(v) => {
            proof {
                let w = read_ior_wire(old(d)@)->Ok_0.0;
                lemma_ior_of_wire(v@, w);
            }
            Ok(v)
        },
        Err(_) => Err(marshal()),
    }
}

/// Reads a string argument.
fn read_string_arg(d: &mut Decoder) -> (r: Result<String, Raise>)
    ensures
        match old(d)@.get_string() {
            Ok((t, after)) => r matches Ok(v) && v@ == t && final(d)@ == after,
            Err(_) => r matches Err(x) && x@ == RaiseView::System(SystemExc::Marshal),
        },
{
    match d.get_string() {
        Ok(v) => Ok(v),
        Err(_) => Err(marshal()),
    }
}


/// How a dispatched operation ended: a normal return, or a user exception
/// whose body was written.
#[derive(Debug, Clone, Copy, PartialEq, Eq, Structural)]
pub enum DispatchBody {
    Return,
    UserException,
}

/// `r`, the servant `s` and the output `o` are what dispatching an
/// operation whose answer is `h` gives: a user exception's body is written
/// after whatever the operation wrote, which is nothing.
pub open spec fn dispatched(
    h: (Result<(), RaiseView>, ServerView, EncoderView),
    r: Result<DispatchBody, SystemExc>,
    s: ServerView,
    o: EncoderView,
) -> bool {
    &&& s == h.1
    &&& match h.0 {
        Ok(()) => r == Ok::<DispatchBody, SystemExc>(DispatchBody::Return) && o == h.2,
        Err(RaiseView::User(u)) => r == Ok::<DispatchBody, SystemExc>(DispatchBody::UserException)
            && o == user_exc_encoding(h.2, u),
        Err(RaiseView::System(x)) => r == Err::<DispatchBody, SystemExc>(x) && o == h.2,
    }
}

impl NamingServer {
    fn op_is_a(&self, args: &mut Decoder, out: &mut Encoder) -> (r: Result<(), Raise>)
        ensures
            (result_view(r), self@, final(out)@) == is_a_reply(self@, old(args)@, old(out)@),
    {
        proof {
            reveal(is_a_reply);
        }
        let id = read_string_arg(args)?;
        let b = str_is(id.as_str(), NAMING_CONTEXT_EXT_ID) || str_is(id.as_str(), NAMING_CONTEXT_ID)
            || str_is(id.as_str(), CORBA_OBJECT_ID);
        out.put_bool(b);
        Ok(())
    }

    fn answer_resolve(&self, key: &[u8], name: &[NameComponent], out: &mut Encoder) -> (r: Result<
        (),
        Raise,
    >)
        requires
            self.wf(),
        ensures
            (result_view(r), self@, final(out)@) == resolve_reply(
                self@,
                key@,
                names_view(name@),
                old(out)@,
            ),
    {
        let b = self.resolve_from(key, name)?;
        let ior = self.ior_of(b);
        match ior.write_to(out) {
            Ok(()) => Ok(()),
            Err(_) => Err(marshal()),
        }
    }

    fn op_bind(&mut self, key: &[u8], args: &mut Decoder, out: &mut Encoder, rebind: bool) -> (r:
        Result<(), Raise>)
        requires
            old(self).wf(),
        ensures
            final(self).wf(),
            (result_view(r), final(self)@, final(out)@) == bind_reply(
                old(self)@,
                key@,
                old(args)@,
                old(out)@,
                rebind,
            ),
    {
        proof {
            reveal(bind_reply);
        }
        let name = read_name_arg(args)?;
        let obj = read_ior_arg(args)?;
        let replace = if rebind {
            Replace::ObjectOnly
        } else {
            Replace::Never
        };
        self.bind_from(key, name.as_slice(), Bound::Object(obj), replace)
    }

    fn op_bind_context(&mut self, key: &[u8], args: &mut Decoder, out: &mut Encoder, rebind: bool) -> (r:
        Result<(), Raise>)
        requires
            old(self).wf(),
        ensures
            final(self).wf(),
            (result_view(r), final(self)@, final(out)@) == bind_context_reply(
                old(self)@,
                key@,
                old(args)@,
                old(out)@,
                rebind,
            ),
    {
        proof {
            reveal(bind_context_reply);
        }
        let name = read_name_arg(args)?;
        let ctx = read_ior_arg(args)?;
        let replace = if rebind {
            Replace::ContextOnly
        } else {
            Replace::Never
        };
        match self.local_context_key(&ctx) {
            Some(k) => self.bind_from(key, name.as_slice(), Bound::Context(k), replace),
            None => Err(Raise::System(SystemExc::NoImplement)),
        }
    }

    fn op_new_context_reply(&self, key: Vec<u8>, out: &mut Encoder) -> (r: Result<(), Raise>)
        ensures
            final(out)@ == ior_encoding(old(out)@, ior_for(self@.host, self@.port, key@)),
            r is Ok,
    {
        let ior = self.ior_for(key.as_slice());
        match ior.write_to(out) {
            Ok(()) => Ok(()),
            Err(_) => Err(marshal()),
        }
    }

    fn op_to_name(&self, args: &mut Decoder, out: &mut Encoder) -> (r: Result<(), Raise>)
        ensures
            (result_view(r), self@, final(out)@) == to_name_reply(self@, old(args)@, old(out)@),
    {
        proof {
            reveal(to_name_reply);
        }
        let text = read_string_arg(args)?;
        let name = match parse_stringified_name(text.as_str()) {
            Ok(n) => n,
            Err(_) => return Err(Raise::User(UserExc::InvalidName)),
        };
        if name.len() == 0 {
            return Err(Raise::User(UserExc::InvalidName));
        }
        write_name(out, name.as_slice());
        Ok(())
    }

    fn op_to_string(&self, args: &mut Decoder, out: &mut Encoder) -> (r: Result<(), Raise>)
        ensures
            (result_view(r), self@, final(out)@) == to_string_reply(self@, old(args)@, old(out)@),
    {
        proof {
            reveal(to_string_reply);
        }
        let name = read_name_arg(args)?;
        if name.len() == 0 {
            return Err(Raise::User(UserExc::InvalidName));
        }
        let text = stringify_name(name.as_slice());
        out.put_str(text.as_str());
        Ok(())
    }

    fn op_to_url(&self, args: &mut Decoder, out: &mut Encoder) -> (r: Result<(), Raise>)
        ensures
            (result_view(r), self@, final(out)@) == to_url_reply(self@, old(args)@, old(out)@),
    {
        proof {
            reveal(to_url_reply);
        }
        let address = read_string_arg(args)?;
        let name = read_string_arg(args)?;
        match to_url(address.as_str(), name.as_str()) {
            Ok(url) => {
                out.put_str(url.as_str());
                Ok(())
            },
            Err(e) => Err(
                match e {
                    UrlError::BadAddress(_) => Raise::User(UserExc::InvalidAddress),
                    UrlError::BadSchemeName(_) => Raise::User(UserExc::InvalidName),
                    UrlError::BadSchemeSpecificPart(_) => Raise::User(UserExc::InvalidName),
                    UrlError::Other(_) => Raise::System(SystemExc::Internal),
                },
            ),
        }
    }

    fn op_resolve(&self, key: &[u8], args: &mut Decoder, out: &mut Encoder) -> (r: Result<(), Raise>)
        requires
            self.wf(),
        ensures
            (result_view(r), self@, final(out)@) == resolve_op_reply(self@, key@, old(args)@, old(out)@),
    {
        proof {
            reveal(resolve_op_reply);
        }
        let name = read_name_arg(args)?;
        self.answer_resolve(key, name.as_slice(), out)
    }

    fn op_resolve_str(&self, key: &[u8], args: &mut Decoder, out: &mut Encoder) -> (r: Result<(), Raise>)
        requires
            self.wf(),
        ensures
            (result_view(r), self@, final(out)@) == resolve_str_reply(self@, key@, old(args)@, old(out)@),
    {
        proof {
            reveal(resolve_str_reply);
        }
        let text = read_string_arg(args)?;
        let name = match parse_stringified_name(text.as_str()) {
            Ok(n) => n,
            Err(_) => return Err(Raise::User(UserExc::InvalidName)),
        };
        self.answer_resolve(key, name.as_slice(), out)
    }

    fn op_destroy(&mut self, key: &[u8], out: &mut Encoder) -> (r: Result<(), Raise>)
        requires
            old(self).wf(),
        ensures
            final(self).wf(),
            (result_view(r), final(self)@, final(out)@) == destroy_reply(old(self)@, key@, old(out)@),
    {
        proof {
            reveal(destroy_reply);
        }
        self.destroy(key)
    }

    fn op_unbind(&mut self, key: &[u8], args: &mut Decoder, out: &mut Encoder) -> (r: Result<(), Raise>)
        requires
            old(self).wf(),
        ensures
            final(self).wf(),
            (result_view(r), final(self)@, final(out)@) == unbind_reply(old(self)@, key@, old(args)@, old(out)@),
    {
        proof {
            reveal(unbind_reply);
        }
        let name = read_name_arg(args)?;
        self.unbind_from(key, name.as_slice())
    }

    fn op_bind_new_context(&mut self, key: &[u8], args: &mut Decoder, out: &mut Encoder) -> (r: Result<(), Raise>)
        requires
            old(self).wf(),
        ensures
            final(self).wf(),
            (result_view(r), final(self)@, final(out)@) == bind_new_context_reply(
                old(self)@,
                key@,
                old(args)@,
                old(out)@,
            ),
    {
        proof {
            reveal(bind_new_context_reply);
        }
        let name = read_name_arg(args)?;
        let k = self.bind_new_context_from(key, name.as_slice())?;
        self.op_new_context_reply(k, out)
    }

    fn op_new_context(&mut self, out: &mut Encoder) -> (r: Result<(), Raise>)
        requires
            old(self).wf(),
        ensures
            final(self).wf(),
            (result_view(r), final(self)@, final(out)@) == new_context_reply(old(self)@, old(out)@),
    {
        proof {
            reveal(new_context_reply);
        }
        let k = self.mint_context()?;
        self.op_new_context_reply(k, out)
    }

    fn op_list(&self, key: &[u8], args: &mut Decoder, out: &mut Encoder) -> (r: Result<(), Raise>)
        requires
            self.wf(),
        ensures
            (result_view(r), self@, final(out)@) == list_reply(self@, key@, old(args)@, old(out)@),
    {
        proof {
            reveal(list_reply);
        }
        let how_many = match args.get_u32() {
            Ok(n) => n,
            Err(_) => return Err(marshal()),
        };
        self.list(key, how_many, out)
    }

    /// Decides one operation on the context behind `object_key`, reading
    /// its arguments from `args` and writing its result into `out`.
    ///
    /// Nothing is written into `out` before the operation can no longer
    /// raise a user exception.
    pub fn handle(&mut self, operation: &str, object_key: &[u8], args: Decoder, out: &mut Encoder) -> (r:
        Result<(), Raise>)
        requires
            old(self).wf(),
        ensures
            final(self).wf(),
            tables_sorted(final(self)@),
            (result_view(r), final(self)@, final(out)@) == handle_spec(
                old(self)@,
                operation@,
                object_key@,
                args@,
                old(out)@,
            ),
    {
        proof {
            reveal(handle_spec);
        }
        let mut args = args;
        if str_is(operation, "_is_a") {
            self.op_is_a(&mut args, out)
        } else if str_is(operation, "_non_existent") {
            out.put_bool(false);
            Ok(())
        } else if str_is(operation, "resolve") {
            self.op_resolve(object_key, &mut args, out)
        } else if str_is(operation, "resolve_str") {
            self.op_resolve_str(object_key, &mut args, out)
        } else if str_is(operation, "bind") || str_is(operation, "rebind") {
            let rebind = str_is(operation, "rebind");
            self.op_bind(object_key, &mut args, out, rebind)
        } else if str_is(operation, "bind_context") || str_is(operation, "rebind_context") {
            let rebind = str_is(operation, "rebind_context");
            self.op_bind_context(object_key, &mut args, out, rebind)
        } else if str_is(operation, "destroy") {
            self.op_destroy(object_key, out)
        } else if str_is(operation, "unbind") {
            self.op_unbind(object_key, &mut args, out)
        } else if str_is(operation, "bind_new_context") {
            self.op_bind_new_context(object_key, &mut args, out)
        } else if str_is(operation, "new_context") {
            self.op_new_context(out)
        } else if str_is(operation, "list") {
            self.op_list(object_key, &mut args, out)
        } else if str_is(operation, "to_name") {
            self.op_to_name(&mut args, out)
        } else if str_is(operation, "to_string") {
            self.op_to_string(&mut args, out)
        } else if str_is(operation, "to_url") {
            self.op_to_url(&mut args, out)
        } else {
            Err(Raise::System(SystemExc::BadOperation))
        }
    }

    /// Dispatches one operation: a user exception becomes its body in
    /// `out`, a system exception is handed back for the caller to reply
    /// with.
    pub fn dispatch_body(&mut self, operation: &str, object_key: &[u8], args: Decoder, out: &mut Encoder) -> (r:
        Result<DispatchBody, SystemExc>)
        requires
            old(self).wf(),
        ensures
            final(self).wf(),
            dispatched(
                handle_spec(old(self)@, operation@, object_key@, args@, old(out)@),
                r,
                final(self)@,
                final(out)@,
            ),
    {
        match self.handle(operation, object_key, args, out) {
            Ok(()) => Ok(DispatchBody::Return),
            Err(Raise::System(x)) => Err(x),
            Err(Raise::User(u)) => {
                u.write(out);
                Ok(DispatchBody::UserException)
            },
        }
    }

    /// The narrow entry point, which cannot carry a user exception: one
    /// arriving here is `UNKNOWN`.
    pub fn dispatch(&mut self, operation: &str, object_key: &[u8], args: Decoder, out: &mut Encoder) -> (r:
        Result<(), SystemExc>)
        requires
            old(self).wf(),
        ensures
            final(self).wf(),
            final(self)@ == handle_spec(old(self)@, operation@, object_key@, args@, old(out)@).1,
            match handle_spec(old(self)@, operation@, object_key@, args@, old(out)@).0 {
                Ok(()) => r is Ok,
                Err(RaiseView::User(_)) => r == Err::<(), SystemExc>(SystemExc::UnknownUserException),
                Err(RaiseView::System(x)) => r == Err::<(), SystemExc>(x),
            },
    {
        match self.dispatch_body(operation, object_key, args, out) {
            Ok(DispatchBody::Return) => Ok(()),
            Ok(DispatchBody::UserException) => Err(SystemExc::UnknownUserException),
            Err(x) => Err(x),
        }
    }
}


// ─────────────────────────────────────────────────────────────────────────────
// Laws
// ─────────────────────────────────────────────────────────────────────────────

/// Changing the binding of `last` in one context changes no walk whose
/// path does not pass through `last`.
proof fn lemma_walk_unchanged(
    cs: Map<Seq<u8>, Seq<(NameView, BoundView)>>,
    changed: Seq<u8>,
    t2: Seq<(NameView, BoundView)>,
    last: NameView,
    c: Seq<u8>,
    name: Seq<NameView>,
    i: int,
)
    requires
        cs.contains_key(changed),
        forall|q: NameView| q != last ==> binding_of(t2, q) == binding_of(cs[changed], q),
        forall|j: int| 0 <= j < name.len() - 1 ==> name[j] != last,
    ensures
        walk_from(cs.insert(changed, t2), c, name, i) == walk_from(cs, c, name, i),
    decreases name.len() - 1 - i,
{
    let cs2 = cs.insert(changed, t2);
    if !(i < 0 || i + 1 >= name.len()) {
        if cs.contains_key(c) {
            assert(binding_of(cs2[c], name[i]) == binding_of(cs[c], name[i]));
            match binding_of(cs[c], name[i]) {
                Some(BoundView::Context(k)) => {
                    lemma_walk_unchanged(cs, changed, t2, last, k, name, i + 1);
                },
                _ => {},
            }
        }
    }
}

/// A name no earlier component of which equals its last resolves, after a
/// successful bind, to what it was bound to.
pub proof fn law_resolve_after_bind(
    cs: Map<Seq<u8>, Seq<(NameView, BoundView)>>,
    start: Seq<u8>,
    name: Seq<NameView>,
    to: BoundView,
    replace: Replace,
)
    requires
        forall|k: Seq<u8>| cs.contains_key(k) ==> bindings_sorted(#[trigger] cs[k]),
        bind_in(cs, start, name, to, replace) is Ok,
        forall|j: int| 0 <= j < name.len() - 1 ==> name[j] != name.last(),
    ensures
        resolve_in(bind_in(cs, start, name, to, replace)->Ok_0, start, name) == Ok::<
            BoundView,
            RaiseView,
        >(to),
{
    let ctx = walk(cs, start, name)->Ok_0;
    let last = name.last();
    let t2 = with_binding(cs[ctx], last, to);
    law_with_binding(cs[ctx], last, to);
    lemma_walk_unchanged(cs, ctx, t2, last, start, name, 0);
}

/// A name no earlier component of which equals its last is, after a
/// successful unbind, `NotFound` with `missing_node` and that component.
pub proof fn law_resolve_after_unbind(
    cs: Map<Seq<u8>, Seq<(NameView, BoundView)>>,
    start: Seq<u8>,
    name: Seq<NameView>,
)
    requires
        forall|k: Seq<u8>| cs.contains_key(k) ==> bindings_sorted(#[trigger] cs[k]),
        unbind_in(cs, start, name) is Ok,
        forall|j: int| 0 <= j < name.len() - 1 ==> name[j] != name.last(),
    ensures
        resolve_in(unbind_in(cs, start, name)->Ok_0, start, name) == Err::<BoundView, RaiseView>(
            not_found(WHY_MISSING_NODE, seq![name.last()]),
        ),
{
    let ctx = walk(cs, start, name)->Ok_0;
    let last = name.last();
    let t2 = without_binding(cs[ctx], last);
    law_without_binding(cs[ctx], last);
    lemma_walk_unchanged(cs, ctx, t2, last, start, name, 0);
}

/// An answer that refuses leaves the servant and the output as they were.
pub open spec fn refusal_keeps(h: (Result<(), RaiseView>, ServerView, EncoderView), s: ServerView, out: EncoderView) -> bool {
    h.0 is Err ==> h.1 == s && h.2 == out
}

/// A refused operation changes nothing: the tree is as it was and nothing
/// has been written.
pub proof fn law_refusal_changes_nothing(s: ServerView, op: Seq<char>, key: Seq<u8>, d: DecoderView, out: EncoderView)
    requires
        handle_spec(s, op, key, d, out).0 is Err,
    ensures
        handle_spec(s, op, key, d, out).1 == s,
        handle_spec(s, op, key, d, out).2 == out,
{
    reveal(handle_spec);
    lemma_refusal_is_a(s, d, out);
    lemma_refusal_resolve_op(s, key, d, out);
    lemma_refusal_resolve_str(s, key, d, out);
    lemma_refusal_bind(s, key, d, out, op == "rebind"@);
    lemma_refusal_bind_context(s, key, d, out, op == "rebind_context"@);
    lemma_refusal_destroy(s, key, out);
    lemma_refusal_unbind(s, key, d, out);
    lemma_refusal_bind_new_context(s, key, d, out);
    lemma_refusal_new_context(s, out);
    lemma_refusal_list(s, key, d, out);
    lemma_refusal_to_name(s, d, out);
    lemma_refusal_to_string(s, d, out);
    lemma_refusal_to_url(s, d, out);
}

proof fn lemma_refusal_is_a(s: ServerView, d: DecoderView, out: EncoderView)
    ensures
        refusal_keeps(is_a_reply(s, d, out), s, out),
{
    reveal(is_a_reply);
}

proof fn lemma_refusal_resolve_op(s: ServerView, key: Seq<u8>, d: DecoderView, out: EncoderView)
    ensures
        refusal_keeps(resolve_op_reply(s, key, d, out), s, out),
{
    reveal(resolve_op_reply);
}

proof fn lemma_refusal_resolve_str(s: ServerView, key: Seq<u8>, d: DecoderView, out: EncoderView)
    ensures
        refusal_keeps(resolve_str_reply(s, key, d, out), s, out),
{
    reveal(resolve_str_reply);
}

proof fn lemma_refusal_bind(s: ServerView, key: Seq<u8>, d: DecoderView, out: EncoderView, rebind: bool)
    ensures
        refusal_keeps(bind_reply(s, key, d, out, rebind), s, out),
{
    reveal(bind_reply);
}

proof fn lemma_refusal_bind_context(s: ServerView, key: Seq<u8>, d: DecoderView, out: EncoderView, rebind: bool)
    ensures
        refusal_keeps(bind_context_reply(s, key, d, out, rebind), s, out),
{
    reveal(bind_context_reply);
}

proof fn lemma_refusal_destroy(s: ServerView, key: Seq<u8>, out: EncoderView)
    ensures
        refusal_keeps(destroy_reply(s, key, out), s, out),
{
    reveal(destroy_reply);
}

proof fn lemma_refusal_unbind(s: ServerView, key: Seq<u8>, d: DecoderView, out: EncoderView)
    ensures
        refusal_keeps(unbind_reply(s, key, d, out), s, out),
{
    reveal(unbind_reply);
}

proof fn lemma_refusal_bind_new_context(s: ServerView, key: Seq<u8>, d: DecoderView, out: EncoderView)
    ensures
        refusal_keeps(bind_new_context_reply(s, key, d, out), s, out),
{
    reveal(bind_new_context_reply);
}

proof fn lemma_refusal_new_context(s: ServerView, out: EncoderView)
    ensures
        refusal_keeps(new_context_reply(s, out), s, out),
{
    reveal(new_context_reply);
}

proof fn lemma_refusal_list(s: ServerView, key: Seq<u8>, d: DecoderView, out: EncoderView)
    ensures
        refusal_keeps(list_reply(s, key, d, out), s, out),
{
    reveal(list_reply);
}

proof fn lemma_refusal_to_name(s: ServerView, d: DecoderView, out: EncoderView)
    ensures
        refusal_keeps(to_name_reply(s, d, out), s, out),
{
    reveal(to_name_reply);
}

proof fn lemma_refusal_to_string(s: ServerView, d: DecoderView, out: EncoderView)
    ensures
        refusal_keeps(to_string_reply(s, d, out), s, out),
{
    reveal(to_string_reply);
}

proof fn lemma_refusal_to_url(s: ServerView, d: DecoderView, out: EncoderView)
    ensures
        refusal_keeps(to_url_reply(s, d, out), s, out),
{
    reveal(to_url_reply);
}

/// Destroying an empty context retires its key: the servant no longer
/// answers for it, and a second destroy is `OBJECT_NOT_EXIST`.
pub proof fn law_destroy_retires(cs: Map<Seq<u8>, Seq<(NameView, BoundView)>>, key: Seq<u8>)
    requires
        destroy_in(cs, key) is Ok,
    ensures
        !destroy_in(cs, key)->Ok_0.contains_key(key),
        destroy_in(destroy_in(cs, key)->Ok_0, key) == Err::<Map<Seq<u8>, Seq<(NameView, BoundView)>>, RaiseView>(
            object_not_exist(),
        ),
{
}

/// Writing bindings only appends, at least eight octets each.
proof fn lemma_bindings_extend(e: EncoderView, t: Seq<(NameView, BoundView)>)
    ensures
        crate::cdr::extends(e, put_bindings(e, t)),
        put_bindings(e, t).ok ==> put_bindings(e, t).bytes.len() >= e.bytes.len() + 8 * t.len(),
    decreases t.len(),
{
    if t.len() == 0 {
        crate::cdr::lemma_extends_refl(e);
    } else {
        let m = put_bindings(e, t.drop_last());
        let n1 = put_name(m, seq![t.last().0]);
        lemma_bindings_extend(e, t.drop_last());
        crate::naming::lemma_name_extends(m, seq![t.last().0]);
        crate::cdr::lemma_u32_extends(n1, binding_type(t.last().1));
        crate::cdr::lemma_extends_trans(m, n1, put_bindings(e, t));
        crate::cdr::lemma_extends_trans(e, m, put_bindings(e, t));
    }
}

/// Bindings written at `e` read back: each one-component name and its type.
proof fn lemma_bindings_read_back(e: EncoderView, t: Seq<(NameView, BoundView)>, d: DecoderView)
    requires
        crate::cdr::holds(put_bindings(e, t), d),
        d.pos == e.bytes.len(),
    ensures
        crate::naming::read_binding_items(d, t.len()) is Ok,
        crate::naming::read_binding_items(d, t.len())->Ok_0.0.len() == t.len(),
        forall|i: int| 0 <= i < t.len() ==> {
            let w = (#[trigger] crate::naming::read_binding_items(d, t.len())->Ok_0.0[i]);
            names_of(w.0) == seq![t[i].0] && w.1 == binding_type(t[i].1)
        },
        crate::naming::read_binding_items(d, t.len())->Ok_0.1 == d.at(put_bindings(e, t).bytes.len() as int),
    decreases t.len(),
{
    reveal(crate::naming::read_binding_items);
    if t.len() == 0 {
        assert(d.at(e.bytes.len() as int) =~= d);
    } else {
        let dl = t.drop_last();
        let c = t.last();
        let m = put_bindings(e, dl);
        let n1 = put_name(m, seq![c.0]);
        let f = put_bindings(e, t);
        crate::cdr::lemma_extends_refl(f);
        lemma_bindings_extend(e, dl);
        crate::naming::lemma_name_extends(m, seq![c.0]);
        crate::cdr::lemma_read_u32_at(n1, binding_type(c.1), f, d);
        crate::cdr::lemma_extends_trans(m, n1, f);
        assert(crate::cdr::holds(m, d)) by {
            crate::cdr::lemma_reads_back_at(e, m, f, d);
        }
        assert(crate::cdr::holds(n1, d)) by {
            crate::cdr::lemma_reads_back_at(m, n1, f, d);
        }
        lemma_bindings_read_back(e, dl, d);
        let dm = d.at(m.bytes.len() as int);
        assert(crate::cdr::holds(n1, dm));
        crate::naming::law_name_wire_round_trip(m, seq![c.0], dm);
        let prev = crate::naming::read_binding_items(d, dl.len())->Ok_0;
        assert(prev.1 == dm);
        let w = crate::naming::read_name_wire(dm)->Ok_0;
        assert(w.1 == d.at(n1.bytes.len() as int)) by {
            assert(dm.at(n1.bytes.len() as int) == d.at(n1.bytes.len() as int));
        }
        assert((t.len() - 1) as nat == dl.len());
        let all = crate::naming::read_binding_items(d, t.len())->Ok_0.0;
        assert(all == prev.0.push((w.0, binding_type(c.1))));
        assert forall|i: int| 0 <= i < t.len() implies {
            let x = (#[trigger] crate::naming::read_binding_items(d, t.len())->Ok_0.0[i]);
            names_of(x.0) == seq![t[i].0] && x.1 == binding_type(t[i].1)
        } by {
            if i < dl.len() {
                assert(all[i] == prev.0[i]);
                assert(t[i] == dl[i]);
            }
        }
    }
}

/// What `list` writes, the client reads back: as many bindings as were
/// asked for (all of them when fewer exist), each with its one-component
/// name and its type, then a nil iterator.
pub proof fn law_list_reads_back(out: EncoderView, t: Seq<(NameView, BoundView)>, how_many: u32, d: DecoderView)
    requires
        crate::cdr::holds(list_encoding(out, t, how_many), d),
        d.pos == out.bytes.len(),
    ensures
        ({
            let k = if (how_many as int) < t.len() {
                how_many as int
            } else {
                t.len() as int
            };
            let r = crate::naming::read_list_wire(d);
            &&& r is Ok
            &&& r->Ok_0.0.len() == k
            &&& forall|i: int|
                0 <= i < k ==> names_of((#[trigger] r->Ok_0.0[i]).0) == seq![t[i].0] && r->Ok_0.0[i].1
                    == binding_type(t[i].1)
            &&& crate::ior::ior_of_wire(r->Ok_0.1) == nil_view()
        }),
{
    reveal(crate::naming::read_list_wire);
    let k = if (how_many as int) < t.len() {
        how_many as int
    } else {
        t.len() as int
    };
    let tk = t.take(k);
    let c = out.put_u32(k as u32);
    let pb = put_bindings(c, tk);
    let f = list_encoding(out, t, how_many);
    crate::cdr::lemma_extends_refl(f);
    lemma_bindings_extend(c, tk);
    crate::ior::lemma_ior_extends(pb, nil_view());
    crate::cdr::lemma_extends_trans(c, pb, f);
    crate::cdr::lemma_read_u32_at(out, k as u32, f, d);
    assert(d.at(out.bytes.len() as int) =~= d);
    let d1 = d.at(c.bytes.len() as int);
    assert(crate::cdr::holds(pb, d)) by {
        crate::cdr::lemma_reads_back_at(c, pb, f, d);
    }
    assert(d1.count_fits(k, 8));
    lemma_bindings_read_back(c, tk, d1);
    let dp = d.at(pb.bytes.len() as int);
    assert(d1.at(pb.bytes.len() as int) == dp);
    crate::ior::law_ior_marshal_round_trip(pb, nil_view(), dp);
    assert forall|i: int| 0 <= i < k implies tk[i] == t[i] by {}
}

} // verus!
