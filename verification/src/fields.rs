//! Dotted configuration keys: entries such as `fields.<name>.<property>` are
//! gathered, by `<name>`, into properties records; properties that a record
//! does not know are gathered the same way (as `<name>.<property>`) into its
//! nested records.

use vstd::prelude::*;
use vstd::string::*;

use crate::text::{decimal, push_decimal, push_signed_decimal, signed_decimal};

verus! {

// ---------------------------------------------------------------------------
// The mathematical model
// ---------------------------------------------------------------------------

/// A value as the model sees it.
pub enum ValueModel {
    Bool(bool),
    Unsigned(u64),
    Signed(i64),
    Text(Seq<char>),
    Null,
    Other(Seq<char>),
}

/// A properties record as the model sees it.
pub struct PropsModel {
    pub f1: Option<Seq<char>>,
    pub f2: Option<u8>,
    pub nested: Seq<(Seq<char>, PropsModel)>,
}

/// An error of gathering, as the model sees it.
pub enum ErrorModel {
    /// A key that does not have the expected dotted form.
    KeyFormat { key: Seq<char>, nested: bool },
    /// The record of this name could not be built.
    Property { name: Seq<char>, cause: CauseModel },
}

/// Why a properties record could not be built, as the model sees it.
pub enum CauseModel {
    /// `f1` holds this value, which is neither text nor null.
    TextExpected(ValueModel),
    /// `f2` holds this value, which is neither a number in `0 ..= 255` nor null.
    ByteExpected(ValueModel),
    /// Gathering the nested records failed.
    Nested(Box<ErrorModel>),
}

/// A key with its value.
pub type EntryModel = (Seq<char>, ValueModel);

/// A name with the entries gathered under it.
pub type GroupModel = (Seq<char>, Seq<EntryModel>);

/// The key prefix of the top level.
pub open spec fn fields_key() -> Seq<char> {
    seq!['f', 'i', 'e', 'l', 'd', 's']
}

/// The name of the text property.
pub open spec fn f1_key() -> Seq<char> {
    seq!['f', '1']
}

/// The name of the number property.
pub open spec fn f2_key() -> Seq<char> {
    seq!['f', '2']
}

/// The position of the first `.` in `s`, if there is one.
pub open spec fn dot_index(s: Seq<char>) -> Option<nat>
    decreases s.len(),
{
    if s.len() == 0 {
        None
    } else if s[0] == '.' {
        Some(0)
    } else {
        match dot_index(s.drop_first()) {
            Some(i) => Some(i + 1),
            None => None,
        }
    }
}

/// `s` cut at its first `.`: what comes before it and what comes after it.
pub open spec fn split_once(s: Seq<char>) -> Option<(Seq<char>, Seq<char>)> {
    match dot_index(s) {
        Some(i) => Some((s.take(i as int), s.skip(i + 1 as int))),
        None => None,
    }
}

/// The name and the property that a key stands for: at the top level a key
/// reads `fields.<name>.<property>` (the property may hold further dots), in a
/// nested record it reads `<name>.<property>`.
pub open spec fn key_parts(key: Seq<char>, nested: bool) -> Option<(Seq<char>, Seq<char>)> {
    if nested {
        split_once(key)
    } else {
        match split_once(key) {
            Some((head, rest)) => if head == fields_key() {
                split_once(rest)
            } else {
                None
            },
            None => None,
        }
    }
}

/// The position of the last entry with key `k`.
pub open spec fn key_index(es: Seq<EntryModel>, k: Seq<char>) -> Option<nat>
    decreases es.len(),
{
    if es.len() == 0 {
        None
    } else if es.last().0 == k {
        Some((es.len() - 1) as nat)
    } else {
        key_index(es.drop_last(), k)
    }
}

/// The position of the last group named `k`.
pub open spec fn group_index(gs: Seq<GroupModel>, k: Seq<char>) -> Option<nat>
    decreases gs.len(),
{
    if gs.len() == 0 {
        None
    } else if gs.last().0 == k {
        Some((gs.len() - 1) as nat)
    } else {
        group_index(gs.drop_last(), k)
    }
}

/// `es` with `k` set to `v`: an entry with that key is replaced in place,
/// otherwise the entry is added at the end.
pub open spec fn insert_entry(es: Seq<EntryModel>, k: Seq<char>, v: ValueModel) -> Seq<EntryModel> {
    match key_index(es, k) {
        Some(i) => es.update(i as int, (k, v)),
        None => es.push((k, v)),
    }
}

/// `gs` with property `k2` of the group named `k1` set to `v`; a group that
/// does not exist yet is added at the end.
pub open spec fn insert_grouped(
    gs: Seq<GroupModel>,
    k1: Seq<char>,
    k2: Seq<char>,
    v: ValueModel,
) -> Seq<GroupModel> {
    match group_index(gs, k1) {
        Some(i) => gs.update(i as int, (k1, insert_entry(gs[i as int].1, k2, v))),
        None => gs.push((k1, seq![(k2, v)])),
    }
}

/// The entries gathered by name, in the order in which the names first
/// appear; the first key that does not have the expected form is an error.
pub open spec fn group_entries(es: Seq<EntryModel>, nested: bool) -> Result<
    Seq<GroupModel>,
    ErrorModel,
>
    decreases es.len(),
{
    if es.len() == 0 {
        Ok(Seq::empty())
    } else {
        match group_entries(es.drop_last(), nested) {
            Err(e) => Err(e),
            Ok(gs) => match key_parts(es.last().0, nested) {
                None => Err(ErrorModel::KeyFormat { key: es.last().0, nested }),
                Some((k1, k2)) => Ok(insert_grouped(gs, k1, k2, es.last().1)),
            },
        }
    }
}

/// One more than the length of the longest key (0 when there is none).
pub open spec fn key_bound(es: Seq<EntryModel>) -> nat
    decreases es.len(),
{
    if es.len() == 0 {
        0
    } else {
        let b = key_bound(es.drop_last());
        if b > es.last().0.len() + 1 {
            b
        } else {
            es.last().0.len() + 1
        }
    }
}

/// The largest `key_bound` of the groups.
pub open spec fn groups_bound(gs: Seq<GroupModel>) -> nat
    decreases gs.len(),
{
    if gs.len() == 0 {
        0
    } else {
        let b = groups_bound(gs.drop_last());
        let c = key_bound(gs.last().1);
        if b > c {
            b
        } else {
            c
        }
    }
}

/// The entries that are not the properties of the record itself.
pub open spec fn unclaimed(es: Seq<EntryModel>) -> Seq<EntryModel>
    decreases es.len(),
{
    if es.len() == 0 {
        Seq::empty()
    } else if es.last().0 == f1_key() || es.last().0 == f2_key() {
        unclaimed(es.drop_last())
    } else {
        unclaimed(es.drop_last()).push(es.last())
    }
}

/// The value of the entry with key `k`, if there is one.
pub open spec fn lookup(es: Seq<EntryModel>, k: Seq<char>) -> Option<ValueModel> {
    match key_index(es, k) {
        Some(i) => Some(es[i as int].1),
        None => None,
    }
}

/// The text property: absent or null gives nothing, text gives itself.
pub open spec fn text_field(v: Option<ValueModel>) -> Result<Option<Seq<char>>, CauseModel> {
    match v {
        None => Ok(None),
        Some(ValueModel::Null) => Ok(None),
        Some(ValueModel::Text(t)) => Ok(Some(t)),
        Some(v) => Err(CauseModel::TextExpected(v)),
    }
}

/// The number property: absent or null gives nothing, a number in
/// `0 ..= 255` gives itself.
pub open spec fn byte_field(v: Option<ValueModel>) -> Result<Option<u8>, CauseModel> {
    match v {
        None => Ok(None),
        Some(ValueModel::Null) => Ok(None),
        Some(ValueModel::Unsigned(n)) => if n <= 255 {
            Ok(Some(n as u8))
        } else {
            Err(CauseModel::ByteExpected(ValueModel::Unsigned(n)))
        },
        Some(ValueModel::Signed(n)) => if 0 <= n <= 255 {
            Ok(Some(n as u8))
        } else {
            Err(CauseModel::ByteExpected(ValueModel::Signed(n)))
        },
        Some(v) => Err(CauseModel::ByteExpected(v)),
    }
}

/// Every key of `es` is shorter than `key_bound(es)`.
pub proof fn lemma_key_bound_above(es: Seq<EntryModel>)
    ensures
        forall|i: int| 0 <= i < es.len() ==> #[trigger] es[i].0.len() < key_bound(es),
    decreases es.len(),
{
    if es.len() > 0 {
        lemma_key_bound_above(es.drop_last());
        assert forall|i: int| 0 <= i < es.len() implies #[trigger] es[i].0.len() < key_bound(es) by {
            if i < es.len() - 1 {
                assert(es[i] == es.drop_last()[i]);
            }
        }
    }
}

/// `key_bound(es)` is at most any bound above every key.
pub proof fn lemma_key_bound_below(es: Seq<EntryModel>, b: nat)
    requires
        forall|i: int| 0 <= i < es.len() ==> #[trigger] es[i].0.len() < b,
    ensures
        key_bound(es) <= b,
    decreases es.len(),
{
    if es.len() > 0 {
        assert forall|i: int| 0 <= i < es.drop_last().len() implies #[trigger] es.drop_last()[i].0.len()
            < b by {
            assert(es.drop_last()[i] == es[i]);
        }
        lemma_key_bound_below(es.drop_last(), b);
        assert(es.last() == es[es.len() - 1]);
    }
}

/// Every group has a `key_bound` of at most `groups_bound(gs)`.
pub proof fn lemma_groups_bound_above(gs: Seq<GroupModel>)
    ensures
        forall|i: int| 0 <= i < gs.len() ==> #[trigger] key_bound(gs[i].1) <= groups_bound(gs),
    decreases gs.len(),
{
    if gs.len() > 0 {
        lemma_groups_bound_above(gs.drop_last());
        assert forall|i: int| 0 <= i < gs.len() implies #[trigger] key_bound(gs[i].1) <= groups_bound(
            gs,
        ) by {
            if i < gs.len() - 1 {
                assert(gs[i] == gs.drop_last()[i]);
            }
        }
    }
}

/// `groups_bound(gs)` is at most any bound on every group.
pub proof fn lemma_groups_bound_below(gs: Seq<GroupModel>, b: nat)
    requires
        forall|i: int| 0 <= i < gs.len() ==> #[trigger] key_bound(gs[i].1) <= b,
    ensures
        groups_bound(gs) <= b,
    decreases gs.len(),
{
    if gs.len() > 0 {
        assert forall|i: int| 0 <= i < gs.drop_last().len() implies #[trigger] key_bound(
            gs.drop_last()[i].1,
        ) <= b by {
            assert(gs.drop_last()[i] == gs[i]);
        }
        lemma_groups_bound_below(gs.drop_last(), b);
        assert(gs.last() == gs[gs.len() - 1]);
    }
}

/// The first `.` lies inside the text.
pub proof fn lemma_dot_index_in_range(s: Seq<char>)
    ensures
        dot_index(s) matches Some(i) ==> i < s.len() && s[i as int] == '.',
    decreases s.len(),
{
    if s.len() > 0 && s[0] != '.' {
        lemma_dot_index_in_range(s.drop_first());
    }
}

/// The property part of a key is shorter than the key.
proof fn lemma_key_parts_shorter(key: Seq<char>, nested: bool)
    ensures
        key_parts(key, nested) matches Some((k1, k2)) ==> k2.len() < key.len(),
{
    lemma_dot_index_in_range(key);
    if let Some((head, rest)) = split_once(key) {
        lemma_dot_index_in_range(rest);
    }
}

/// Setting a key keeps every key below a bound that the new key is below too.
proof fn lemma_insert_entry_keys(es: Seq<EntryModel>, k: Seq<char>, v: ValueModel, b: nat)
    requires
        forall|m: int| 0 <= m < es.len() ==> #[trigger] es[m].0.len() < b,
        k.len() < b,
    ensures
        forall|m: int|
            0 <= m < insert_entry(es, k, v).len() ==> #[trigger] insert_entry(es, k, v)[m].0.len()
                < b,
{
    lemma_key_index_in_range(es, k);
    let fs = insert_entry(es, k, v);
    assert forall|m: int| 0 <= m < fs.len() implies #[trigger] fs[m].0.len() < b by {
        match key_index(es, k) {
            Some(i) => {
                if m != i {
                    assert(fs[m] == es[m]);
                }
            },
            None => {
                if m < es.len() {
                    assert(fs[m] == es[m]);
                }
            },
        }
    }
}

/// Gathering keeps every property key below a bound that the new key is below too.
proof fn lemma_insert_grouped_keys(
    gs: Seq<GroupModel>,
    k1: Seq<char>,
    k2: Seq<char>,
    v: ValueModel,
    b: nat,
)
    requires
        forall|j: int, m: int|
            0 <= j < gs.len() && 0 <= m < gs[j].1.len() ==> #[trigger] gs[j].1[m].0.len() < b,
        k2.len() < b,
    ensures
        ({
            let hs = insert_grouped(gs, k1, k2, v);
            forall|j: int, m: int|
                0 <= j < hs.len() && 0 <= m < hs[j].1.len() ==> #[trigger] hs[j].1[m].0.len() < b
        }),
{
    let hs = insert_grouped(gs, k1, k2, v);
    match group_index(gs, k1) {
        Some(i) => {
            lemma_group_index_in_range(gs, k1);
            assert forall|m: int| 0 <= m < gs[i as int].1.len() implies #[trigger] gs[i as int].1[m].0.len() < b by {
            }
            lemma_insert_entry_keys(gs[i as int].1, k2, v, b);
            assert forall|j: int, m: int|
                0 <= j < hs.len() && 0 <= m < hs[j].1.len() implies #[trigger] hs[j].1[m].0.len() < b by {
                if j == i {
                    assert(hs[j].1 == insert_entry(gs[i as int].1, k2, v));
                } else {
                    assert(hs[j] == gs[j]);
                }
            }
        },
        None => {
            assert forall|j: int, m: int|
                0 <= j < hs.len() && 0 <= m < hs[j].1.len() implies #[trigger] hs[j].1[m].0.len() < b by {
                if j < gs.len() {
                    assert(hs[j] == gs[j]);
                } else {
                    assert(hs[j].1 == seq![(k2, v)]);
                }
            }
        },
    }
}

/// A group index found is in range and names the group.
pub proof fn lemma_group_index_in_range(gs: Seq<GroupModel>, k: Seq<char>)
    ensures
        group_index(gs, k) matches Some(i) ==> i < gs.len() && gs[i as int].0 == k,
        group_index(gs, k) is None ==> forall|j: int| 0 <= j < gs.len() ==> #[trigger] gs[j].0 != k,
    decreases gs.len(),
{
    if gs.len() > 0 {
        lemma_group_index_in_range(gs.drop_last(), k);
        if gs.last().0 != k && group_index(gs, k) is None {
            assert forall|j: int| 0 <= j < gs.len() implies #[trigger] gs[j].0 != k by {
                if j < gs.len() - 1 {
                    assert(gs[j] == gs.drop_last()[j]);
                }
            }
        }
    }
}

/// A key index found is in range and holds the key.
pub proof fn lemma_key_index_in_range(es: Seq<EntryModel>, k: Seq<char>)
    ensures
        key_index(es, k) matches Some(i) ==> i < es.len() && es[i as int].0 == k,
        key_index(es, k) is None ==> forall|j: int| 0 <= j < es.len() ==> #[trigger] es[j].0 != k,
    decreases es.len(),
{
    if es.len() > 0 {
        lemma_key_index_in_range(es.drop_last(), k);
        if es.last().0 != k && key_index(es, k) is None {
            assert forall|j: int| 0 <= j < es.len() implies #[trigger] es[j].0 != k by {
                if j < es.len() - 1 {
                    assert(es[j] == es.drop_last()[j]);
                }
            }
        }
    }
}

/// The property keys gathered from `es` are at least two shorter than
/// `key_bound(es)`.
pub proof fn lemma_group_entries_shorter(es: Seq<EntryModel>, nested: bool)
    ensures
        group_entries(es, nested) matches Ok(gs) ==> forall|j: int, m: int|
            0 <= j < gs.len() && 0 <= m < gs[j].1.len() ==> #[trigger] gs[j].1[m].0.len() + 1
                < key_bound(es),
    decreases es.len(),
{
    if es.len() > 0 {
        lemma_group_entries_shorter(es.drop_last(), nested);
        if let Ok(gs) = group_entries(es.drop_last(), nested) {
            if let Some((k1, k2)) = key_parts(es.last().0, nested) {
                lemma_key_parts_shorter(es.last().0, nested);
                let b = (key_bound(es) - 1) as nat;
                lemma_insert_grouped_keys(gs, k1, k2, es.last().1, b);
            }
        }
    }
}

/// The gathered groups have a smaller bound than the entries they come from.
pub proof fn lemma_groups_bound_smaller(es: Seq<EntryModel>, nested: bool)
    requires
        es.len() > 0,
    ensures
        group_entries(es, nested) matches Ok(gs) ==> groups_bound(gs) < key_bound(es),
{
    lemma_group_entries_shorter(es, nested);
    lemma_key_bound_above(es);
    assert(es[0].0.len() < key_bound(es));
    if let Ok(gs) = group_entries(es, nested) {
        let b = (key_bound(es) - 1) as nat;
        assert forall|j: int| 0 <= j < gs.len() implies #[trigger] key_bound(gs[j].1) <= b by {
            assert forall|m: int| 0 <= m < gs[j].1.len() implies #[trigger] gs[j].1[m].0.len() < b by {}
            lemma_key_bound_below(gs[j].1, b);
        }
        lemma_groups_bound_below(gs, b);
    }
}

/// The unclaimed entries are a part of the entries.
pub proof fn lemma_unclaimed_keys(es: Seq<EntryModel>)
    ensures
        forall|m: int| 0 <= m < unclaimed(es).len() ==> #[trigger] unclaimed(es)[m].0.len() < key_bound(es),
        unclaimed(es).len() <= es.len(),
    decreases es.len(),
{
    if es.len() > 0 {
        lemma_unclaimed_keys(es.drop_last());
        let u = unclaimed(es.drop_last());
        assert forall|m: int| 0 <= m < unclaimed(es).len() implies #[trigger] unclaimed(es)[m].0.len() < key_bound(es) by {
            if m < u.len() {
                assert(unclaimed(es)[m] == u[m]);
            }
        }
    }
}

/// The unclaimed entries have a bound no larger than all the entries.
pub proof fn lemma_unclaimed_bound(es: Seq<EntryModel>)
    ensures
        key_bound(unclaimed(es)) <= key_bound(es),
{
    lemma_unclaimed_keys(es);
    lemma_key_bound_below(unclaimed(es), key_bound(es));
}

/// The properties record built from the entries gathered under one name:
/// `f1` and `f2` are its own properties, every other entry is gathered into
/// its nested records. `f1` is read first, then `f2`, then the nested records;
/// the first of them that fails decides the error.
pub open spec fn props_model(es: Seq<EntryModel>) -> Result<PropsModel, CauseModel>
    decreases key_bound(es), 0nat,
{
    match text_field(lookup(es, f1_key())) {
        Err(c) => Err(c),
        Ok(f1) => match byte_field(lookup(es, f2_key())) {
            Err(c) => Err(c),
            Ok(f2) => {
                let rest = unclaimed(es);
                if rest.len() == 0 {
                    Ok(PropsModel { f1, f2, nested: Seq::empty() })
                } else {
                    match group_entries(rest, true) {
                        Err(e) => Err(CauseModel::Nested(Box::new(e))),
                        Ok(gs) => {
                            proof {
                                lemma_unclaimed_bound(es);
                                lemma_groups_bound_smaller(rest, true);
                            }
                            match build_groups(gs) {
                                Err(e) => Err(CauseModel::Nested(Box::new(e))),
                                Ok(n) => Ok(PropsModel { f1, f2, nested: n }),
                            }
                        },
                    }
                }
            },
        },
    }
}

/// The records built from the groups, in order; the first group whose
/// record cannot be built is an error.
pub open spec fn build_groups(gs: Seq<GroupModel>) -> Result<Seq<(Seq<char>, PropsModel)>, ErrorModel>
    decreases groups_bound(gs), gs.len() + 1,
{
    if gs.len() == 0 {
        Ok(Seq::empty())
    } else {
        proof {
            lemma_groups_bound_above(gs);
            assert(gs.last() == gs[gs.len() - 1]);
        }
        match build_groups(gs.drop_last()) {
            Err(e) => Err(e),
            Ok(done) => match props_model(gs.last().1) {
                Err(c) => Err(ErrorModel::Property { name: gs.last().0, cause: c }),
                Ok(p) => Ok(done.push((gs.last().0, p))),
            },
        }
    }
}

/// The records that the entries describe, by name.
pub open spec fn collect_model(es: Seq<EntryModel>, nested: bool) -> Result<
    Seq<(Seq<char>, PropsModel)>,
    ErrorModel,
> {
    match group_entries(es, nested) {
        Err(e) => Err(e),
        Ok(gs) => build_groups(gs),
    }
}

// ---------------------------------------------------------------------------
// Values, records and errors
// ---------------------------------------------------------------------------

/// A value found under a key.
#[derive(Debug)]
pub enum FieldValue {
    Bool(bool),
    Unsigned(u64),
    Signed(i64),
    Text(String),
    Null,
    /// Anything else (a fractional number, a list, a map), with the text
    /// that names it in error messages (such as `sequence`).
    Other(String),
}

impl View for FieldValue {
    type V = ValueModel;

    open spec fn view(&self) -> ValueModel {
        match self {
            FieldValue::Bool(b) => ValueModel::Bool(*b),
            FieldValue::Unsigned(n) => ValueModel::Unsigned(*n),
            FieldValue::Signed(n) => ValueModel::Signed(*n),
            FieldValue::Text(t) => ValueModel::Text(t@),
            FieldValue::Null => ValueModel::Null,
            FieldValue::Other(d) => ValueModel::Other(d@),
        }
    }
}

/// A properties record: two known properties and the records nested in it.
#[derive(Debug)]
pub struct Properties {
    pub f1: Option<String>,
    pub f2: Option<u8>,
    pub nested: Vec<(String, Properties)>,
}

/// Why gathering dotted keys failed.
#[derive(Debug)]
pub enum FieldsError {
    /// A key that does not have the expected dotted form.
    KeyFormat { key: String, nested: bool },
    /// The record of this name could not be built.
    Property { name: String, cause: PropertyError },
}

/// Why a properties record could not be built.
#[derive(Debug)]
pub enum PropertyError {
    /// `f1` holds this value, which is neither text nor null.
    TextExpected(FieldValue),
    /// `f2` holds this value, which is neither a number in `0 ..= 255` nor null.
    ByteExpected(FieldValue),
    /// Gathering the nested records failed.
    Nested(Box<FieldsError>),
}

pub open spec fn text_view(t: Option<String>) -> Option<Seq<char>> {
    match t {
        Some(s) => Some(s@),
        None => None,
    }
}

/// The model of a record.
pub open spec fn props_view(p: Properties) -> PropsModel
    decreases p,
{
    PropsModel { f1: text_view(p.f1), f2: p.f2, nested: named_props_view(p.nested@) }
}

/// The model of named records.
pub open spec fn named_props_view(s: Seq<(String, Properties)>) -> Seq<(Seq<char>, PropsModel)>
    decreases s,
{
    if s.len() == 0 {
        Seq::empty()
    } else {
        named_props_view(s.drop_last()).push((s.last().0@, props_view(s.last().1)))
    }
}

/// The model of an error.
pub open spec fn error_view(e: FieldsError) -> ErrorModel
    decreases e,
{
    match e {
        FieldsError::KeyFormat { key, nested } => ErrorModel::KeyFormat { key: key@, nested },
        FieldsError::Property { name, cause } => ErrorModel::Property {
            name: name@,
            cause: cause_view(cause),
        },
    }
}

/// The model of the cause of an error.
pub open spec fn cause_view(c: PropertyError) -> CauseModel
    decreases c,
{
    match c {
        PropertyError::TextExpected(v) => CauseModel::TextExpected(v@),
        PropertyError::ByteExpected(v) => CauseModel::ByteExpected(v@),
        PropertyError::Nested(e) => CauseModel::Nested(Box::new(error_view(*e))),
    }
}

/// The model of entries.
pub open spec fn entries_view(es: Seq<(String, FieldValue)>) -> Seq<EntryModel> {
    es.map_values(|e: (String, FieldValue)| (e.0@, e.1@))
}

/// The model of groups.
pub open spec fn groups_view(gs: Seq<(String, Vec<(String, FieldValue)>)>) -> Seq<GroupModel> {
    gs.map_values(|g: (String, Vec<(String, FieldValue)>)| (g.0@, entries_view(g.1@)))
}

/// The model of the outcome of gathering.
pub open spec fn collect_view(r: Result<Vec<(String, Properties)>, FieldsError>) -> Result<
    Seq<(Seq<char>, PropsModel)>,
    ErrorModel,
> {
    match r {
        Ok(v) => Ok(named_props_view(v@)),
        Err(e) => Err(error_view(e)),
    }
}

/// The model of the outcome of building a record.
pub open spec fn props_result_view(r: Result<Properties, PropertyError>) -> Result<PropsModel, CauseModel> {
    match r {
        Ok(p) => Ok(props_view(p)),
        Err(c) => Err(cause_view(c)),
    }
}

// ---------------------------------------------------------------------------
// Splitting keys
// ---------------------------------------------------------------------------

/// The first `.` is found where the scan stops.
proof fn lemma_dot_index_found(s: Seq<char>, i: int)
    requires
        0 <= i <= s.len(),
        forall|k: int| 0 <= k < i ==> s[k] != '.',
        i < s.len() ==> s[i] == '.',
    ensures
        i < s.len() ==> dot_index(s) == Some(i as nat),
        i == s.len() ==> dot_index(s) is None,
    decreases i,
{
    if s.len() > 0 && i > 0 {
        assert forall|k: int| 0 <= k < i - 1 implies s.drop_first()[k] != '.' by {
            assert(s.drop_first()[k] == s[k + 1]);
        }
        lemma_dot_index_found(s.drop_first(), i - 1);
        assert(s[0] != '.');
    }
}

/// The model of an optional pair of texts.
pub open spec fn pair_view(r: Option<(String, String)>) -> Option<(Seq<char>, Seq<char>)> {
    match r {
        Some((a, b)) => Some((a@, b@)),
        None => None,
    }
}

/// Cuts `s` at its first `.`.
fn split_once_exec(s: &str) -> (r: Option<(String, String)>)
    ensures
        pair_view(r) == split_once(s@),
{
    let n = s.unicode_len();
    let mut i: usize = 0;
    while i < n
        invariant
            n == s@.len(),
            i <= n,
            forall|k: int| 0 <= k < i ==> s@[k] != '.',
        decreases n - i,
    {
        if s.get_char(i) == '.' {
            proof {
                lemma_dot_index_found(s@, i as int);
            }
            let head = s.substring_char(0, i).to_owned();
            let rest = s.substring_char(i + 1, n).to_owned();
            assert(s@.skip(i + 1) == s@.subrange(i + 1, n as int));
            return Some((head, rest));
        }
        i = i + 1;
    }
    proof {
        lemma_dot_index_found(s@, i as int);
    }
    None
}

/// A `String` holding the text of a literal.
fn literal_fields() -> (r: String)
    ensures
        r@ == fields_key(),
{
    proof {
        reveal_strlit("fields");
    }
    String::from_str("fields")
}

fn literal_f1() -> (r: String)
    ensures
        r@ == f1_key(),
{
    proof {
        reveal_strlit("f1");
    }
    String::from_str("f1")
}

fn literal_f2() -> (r: String)
    ensures
        r@ == f2_key(),
{
    proof {
        reveal_strlit("f2");
    }
    String::from_str("f2")
}

/// The name and the property that `key` stands for (see `key_parts`).
pub fn split_key(key: &str, nested: bool) -> (r: Option<(String, String)>)
    ensures
        pair_view(r) == key_parts(key@, nested),
{
    if nested {
        split_once_exec(key)
    } else {
        match split_once_exec(key) {
            Some((head, rest)) => {
                let expected = literal_fields();
                if head == expected {
                    split_once_exec(rest.as_str())
                } else {
                    None
                }
            },
            None => None,
        }
    }
}

// ---------------------------------------------------------------------------
// Gathering entries by name
// ---------------------------------------------------------------------------

/// Which position an optional index stands for.
pub open spec fn index_view(r: Option<usize>) -> Option<nat> {
    match r {
        Some(i) => Some(i as nat),
        None => None,
    }
}

/// The position of the last entry with key `k`.
fn find_entry(es: &Vec<(String, FieldValue)>, k: &String) -> (r: Option<usize>)
    ensures
        index_view(r) == key_index(entries_view(es@), k@),
{
    let ghost view = entries_view(es@);
    let mut j: usize = es.len();
    assert(view.take(j as int) == view);
    while j > 0
        invariant
            j <= es@.len(),
            view == entries_view(es@),
            key_index(view, k@) == key_index(view.take(j as int), k@),
        decreases j,
    {
        assert(view.take(j as int).drop_last() == view.take(j - 1));
        if es[j - 1].0 == *k {
            return Some(j - 1);
        }
        j = j - 1;
    }
    None
}

/// The position of the last group named `k`.
fn find_group(gs: &Vec<(String, Vec<(String, FieldValue)>)>, k: &String) -> (r: Option<usize>)
    ensures
        index_view(r) == group_index(groups_view(gs@), k@),
{
    let ghost view = groups_view(gs@);
    let mut j: usize = gs.len();
    assert(view.take(j as int) == view);
    while j > 0
        invariant
            j <= gs@.len(),
            view == groups_view(gs@),
            group_index(view, k@) == group_index(view.take(j as int), k@),
        decreases j,
    {
        assert(view.take(j as int).drop_last() == view.take(j - 1));
        if gs[j - 1].0 == *k {
            return Some(j - 1);
        }
        j = j - 1;
    }
    None
}

/// A copy of a value.
fn copy_value(v: &FieldValue) -> (r: FieldValue)
    ensures
        r@ == v@,
{
    match v {
        FieldValue::Bool(b) => FieldValue::Bool(*b),
        FieldValue::Unsigned(n) => FieldValue::Unsigned(*n),
        FieldValue::Signed(n) => FieldValue::Signed(*n),
        FieldValue::Text(t) => FieldValue::Text(t.clone()),
        FieldValue::Null => FieldValue::Null,
        FieldValue::Other(d) => FieldValue::Other(d.clone()),
    }
}

/// Sets key `k` of `es` to `v` (see `insert_entry`).
fn insert_entry_exec(es: &mut Vec<(String, FieldValue)>, k: String, v: FieldValue)
    ensures
        entries_view(final(es)@) == insert_entry(entries_view(old(es)@), k@, v@),
{
    proof {
        lemma_key_index_in_range(entries_view(es@), k@);
    }
    match find_entry(es, &k) {
        Some(j) => {
            es.set(j, (k, v));
            assert(entries_view(es@) == entries_view(old(es)@).update(j as int, (k@, v@)));
        },
        None => {
            es.push((k, v));
            assert(entries_view(es@) == entries_view(old(es)@).push((k@, v@)));
        },
    }
}

/// Sets property `k2` of the group named `k1` to `v` (see `insert_grouped`).
fn insert_grouped_exec(
    gs: &mut Vec<(String, Vec<(String, FieldValue)>)>,
    k1: String,
    k2: String,
    v: FieldValue,
)
    ensures
        groups_view(final(gs)@) == insert_grouped(groups_view(old(gs)@), k1@, k2@, v@),
{
    proof {
        lemma_group_index_in_range(groups_view(gs@), k1@);
    }
    match find_group(gs, &k1) {
        Some(j) => {
            let (name, mut es) = gs.remove(j);
            insert_entry_exec(&mut es, k2, v);
            gs.insert(j, (k1, es));
            assert(groups_view(gs@) == groups_view(old(gs)@).update(
                j as int,
                (k1@, insert_entry(groups_view(old(gs)@)[j as int].1, k2@, v@)),
            ));
        },
        None => {
            let mut es: Vec<(String, FieldValue)> = Vec::new();
            es.push((k2, v));
            assert(entries_view(es@) == seq![(k2@, v@)]);
            gs.push((k1, es));
            assert(groups_view(gs@) == groups_view(old(gs)@).push((k1@, seq![(k2@, v@)])));
        },
    }
}

/// Once gathering a prefix has failed, gathering the whole fails the same way.
proof fn lemma_group_entries_prefix_error(es: Seq<EntryModel>, nested: bool, i: int)
    requires
        0 <= i <= es.len(),
        group_entries(es.take(i), nested) is Err,
    ensures
        group_entries(es, nested) == group_entries(es.take(i), nested),
    decreases es.len() - i,
{
    if i < es.len() {
        assert(es.take(i + 1).drop_last() == es.take(i));
        lemma_group_entries_prefix_error(es, nested, i + 1);
    } else {
        assert(es.take(i) == es);
    }
}

/// The entries gathered by name (see `group_entries`).
fn group_entries_exec(es: &Vec<(String, FieldValue)>, nested: bool) -> (r: Result<
    Vec<(String, Vec<(String, FieldValue)>)>,
    FieldsError,
>)
    ensures
        match r {
            Ok(gs) => group_entries(entries_view(es@), nested) == Ok::<
                Seq<GroupModel>,
                ErrorModel,
            >(groups_view(gs@)),
            Err(e) => group_entries(entries_view(es@), nested) == Err::<Seq<GroupModel>, ErrorModel>(
                error_view(e),
            ),
        },
{
    let ghost view = entries_view(es@);
    let mut gs: Vec<(String, Vec<(String, FieldValue)>)> = Vec::new();
    let mut i: usize = 0;
    assert(view.take(0) == Seq::<EntryModel>::empty());
    assert(groups_view(gs@) == Seq::<GroupModel>::empty());
    while i < es.len()
        invariant
            i <= es@.len(),
            view == entries_view(es@),
            group_entries(view.take(i as int), nested) == Ok::<Seq<GroupModel>, ErrorModel>(
                groups_view(gs@),
            ),
        decreases es@.len() - i,
    {
        assert(view.take(i + 1).drop_last() == view.take(i as int));
        assert(view.take(i + 1).last() == view[i as int]);
        match split_key(es[i].0.as_str(), nested) {
            None => {
                let e = FieldsError::KeyFormat { key: es[i].0.clone(), nested };
                proof {
                    lemma_group_entries_prefix_error(view, nested, i + 1);
                }
                return Err(e);
            },
            Some((k1, k2)) => {
                insert_grouped_exec(&mut gs, k1, k2, copy_value(&es[i].1));
            },
        }
        i = i + 1;
    }
    assert(view.take(i as int) == view);
    Ok(gs)
}

// ---------------------------------------------------------------------------
// Building records
// ---------------------------------------------------------------------------

/// Copies of the entries that are not the record's own properties.
fn unclaimed_exec(es: &Vec<(String, FieldValue)>) -> (r: Vec<(String, FieldValue)>)
    ensures
        entries_view(r@) == unclaimed(entries_view(es@)),
{
    let ghost view = entries_view(es@);
    let f1 = literal_f1();
    let f2 = literal_f2();
    let mut r: Vec<(String, FieldValue)> = Vec::new();
    let mut i: usize = 0;
    assert(view.take(0) == Seq::<EntryModel>::empty());
    while i < es.len()
        invariant
            i <= es@.len(),
            view == entries_view(es@),
            f1@ == f1_key(),
            f2@ == f2_key(),
            entries_view(r@) == unclaimed(view.take(i as int)),
        decreases es@.len() - i,
    {
        assert(view.take(i + 1).drop_last() == view.take(i as int));
        assert(view.take(i + 1).last() == view[i as int]);
        if es[i].0 == f1 || es[i].0 == f2 {
        } else {
            let ghost before = r@;
            r.push((es[i].0.clone(), copy_value(&es[i].1)));
            assert(entries_view(r@) == entries_view(before).push(view[i as int]));
        }
        i = i + 1;
    }
    assert(view.take(i as int) == view);
    r
}

/// Once building a prefix of the groups has failed, building them all fails
/// the same way.
proof fn lemma_build_groups_prefix_error(gs: Seq<GroupModel>, i: int)
    requires
        0 <= i <= gs.len(),
        build_groups(gs.take(i)) is Err,
    ensures
        build_groups(gs) == build_groups(gs.take(i)),
    decreases gs.len() - i,
{
    if i < gs.len() {
        assert(gs.take(i + 1).drop_last() == gs.take(i));
        lemma_build_groups_prefix_error(gs, i + 1);
    } else {
        assert(gs.take(i) == gs);
    }
}

/// Gathering nothing gives no groups.
proof fn lemma_group_entries_empty(es: Seq<EntryModel>, nested: bool)
    requires
        es.len() == 0,
    ensures
        group_entries(es, nested) == Ok::<Seq<GroupModel>, ErrorModel>(Seq::empty()),
{
}

impl Properties {
    /// Builds a record from the entries gathered under its name (see
    /// `props_model`).
    pub fn from_entries(es: &Vec<(String, FieldValue)>) -> (r: Result<Properties, PropertyError>)
        ensures
            props_result_view(r) == props_model(entries_view(es@)),
        decreases key_bound(entries_view(es@)), 3nat,
    {
        let ghost view = entries_view(es@);
        let f1_name = literal_f1();
        let f1: Option<String> = match find_entry(es, &f1_name) {
            None => None,
            Some(j) => {
                proof {
                    lemma_key_index_in_range(view, f1_key());
                }
                match &es[j].1 {
                    FieldValue::Null => None,
                    FieldValue::Text(t) => Some(t.clone()),
                    other => {
                        return Err(PropertyError::TextExpected(copy_value(other)));
                    },
                }
            },
        };
        let f2_name = literal_f2();
        let f2: Option<u8> = match find_entry(es, &f2_name) {
            None => None,
            Some(j) => {
                proof {
                    lemma_key_index_in_range(view, f2_key());
                }
                match &es[j].1 {
                    FieldValue::Null => None,
                    FieldValue::Unsigned(n) => {
                        if *n <= 255 {
                            Some(*n as u8)
                        } else {
                            return Err(PropertyError::ByteExpected(FieldValue::Unsigned(*n)));
                        }
                    },
                    FieldValue::Signed(n) => {
                        if 0 <= *n && *n <= 255 {
                            Some(*n as u8)
                        } else {
                            return Err(PropertyError::ByteExpected(FieldValue::Signed(*n)));
                        }
                    },
                    other => {
                        return Err(PropertyError::ByteExpected(copy_value(other)));
                    },
                }
            },
        };
        let rest = unclaimed_exec(es);
        if rest.len() == 0 {
            let nested: Vec<(String, Properties)> = Vec::new();
            assert(named_props_view(nested@) == Seq::<(Seq<char>, PropsModel)>::empty());
            return Ok(Properties { f1, f2, nested });
        }
        proof {
            lemma_unclaimed_bound(view);
        }
        match deserialize_fields_nested(&rest) {
            Err(e) => Err(PropertyError::Nested(Box::new(e))),
            Ok(nested) => Ok(Properties { f1, f2, nested }),
        }
    }
}

/// Gathers dotted keys into records; `nested` tells whether the keys are
/// those of a nested record (`<name>.<property>`) or of the top level
/// (`fields.<name>.<property>`).
pub struct FieldsVisitor {
    pub nested: bool,
}

impl FieldsVisitor {
    /// The records that the entries describe, by name, in the order in which
    /// the names first appear (see `collect_model`).
    pub fn visit_map(&self, es: &Vec<(String, FieldValue)>) -> (r: Result<
        Vec<(String, Properties)>,
        FieldsError,
    >)
        ensures
            collect_view(r) == collect_model(entries_view(es@), self.nested),
        decreases key_bound(entries_view(es@)), 1nat,
    {
        let ghost view = entries_view(es@);
        let gs = match group_entries_exec(es, self.nested) {
            Err(e) => {
                return Err(e);
            },
            Ok(gs) => gs,
        };
        let ghost gview = groups_view(gs@);
        proof {
            if view.len() == 0 {
                lemma_group_entries_empty(view, self.nested);
            } else {
                lemma_groups_bound_smaller(view, self.nested);
            }
            lemma_groups_bound_above(gview);
        }
        let mut out: Vec<(String, Properties)> = Vec::new();
        let mut i: usize = 0;
        assert(gview.take(0) == Seq::<GroupModel>::empty());
        while i < gs.len()
            invariant
                i <= gs@.len(),
                view == entries_view(es@),
                gview == groups_view(gs@),
                group_entries(view, self.nested) == Ok::<Seq<GroupModel>, ErrorModel>(gview),
                gs@.len() > 0 ==> groups_bound(gview) < key_bound(view),
                forall|j: int| 0 <= j < gview.len() ==> #[trigger] key_bound(gview[j].1) <= groups_bound(gview),
                build_groups(gview.take(i as int)) == Ok::<Seq<(Seq<char>, PropsModel)>, ErrorModel>(
                    named_props_view(out@),
                ),
            decreases gs@.len() - i,
        {
            assert(gview.take(i + 1).drop_last() == gview.take(i as int));
            assert(gview.take(i + 1).last() == gview[i as int]);
            assert(gview[i as int] == (gs@[i as int].0@, entries_view(gs@[i as int].1@)));
            assert(key_bound(gview[i as int].1) <= groups_bound(gview));
            let group = &gs[i].1;
            assert(gview[i as int].1 == entries_view(group@));
            assert(key_bound(entries_view(group@)) < key_bound(entries_view(es@)));
            match Properties::from_entries(group) {
                Err(c) => {
                    let e = FieldsError::Property { name: gs[i].0.clone(), cause: c };
                    proof {
                        assert(build_groups(gview.take(i + 1)) == Err::<Seq<(Seq<char>, PropsModel)>, ErrorModel>(error_view(e)));
                        lemma_build_groups_prefix_error(gview, i + 1);
                    }
                    return Err(e);
                },
                Ok(p) => {
                    let ghost before = out@;
                    out.push((gs[i].0.clone(), p));
                    assert(out@.drop_last() == before);
                },
            }
            i = i + 1;
        }
        assert(gview.take(i as int) == gview);
        Ok(out)
    }
}

/// The records that top-level entries (`fields.<name>.<property>`) describe.
pub fn deserialize_fields(es: &Vec<(String, FieldValue)>) -> (r: Result<
    Vec<(String, Properties)>,
    FieldsError,
>)
    ensures
        collect_view(r) == collect_model(entries_view(es@), false),
{
    FieldsVisitor { nested: false }.visit_map(es)
}

/// The records that the entries of a nested record (`<name>.<property>`)
/// describe.
pub fn deserialize_fields_nested(es: &Vec<(String, FieldValue)>) -> (r: Result<
    Vec<(String, Properties)>,
    FieldsError,
>)
    ensures
        collect_view(r) == collect_model(entries_view(es@), true),
    decreases key_bound(entries_view(es@)), 2nat,
{
    FieldsVisitor { nested: true }.visit_map(es)
}

// ---------------------------------------------------------------------------
// The top-level record
// ---------------------------------------------------------------------------

/// A field of the top-level record.
#[derive(PartialEq, Eq, Structural, Clone, Copy, Debug)]
pub enum FooField {
    A,
    B,
}

/// Why the top-level record could not be built, as the model sees it.
pub enum FooErrorModel {
    Duplicate(FooField),
    Invalid(FooField, ValueModel),
    Missing(FooField),
    Fields(ErrorModel),
}

/// What a scan of the top-level entries has found so far.
pub struct FooScan {
    pub a: Option<usize>,
    pub b: Option<Seq<char>>,
    pub rest: Seq<EntryModel>,
}

pub open spec fn a_key() -> Seq<char> {
    seq!['a']
}

pub open spec fn b_key() -> Seq<char> {
    seq!['b']
}

/// A value read as a `usize`: a whole number in range.
pub open spec fn usize_value(v: ValueModel) -> Option<usize> {
    match v {
        ValueModel::Unsigned(n) => if n <= usize::MAX {
            Some(n as usize)
        } else {
            None
        },
        ValueModel::Signed(n) => if 0 <= n && n <= usize::MAX {
            Some(n as usize)
        } else {
            None
        },
        _ => None,
    }
}

/// Scans the top-level entries in order: `a` and `b` are the record's own
/// fields (each may appear once), every other entry is kept, in order, for
/// the dotted keys.
pub open spec fn scan_foo(es: Seq<EntryModel>) -> Result<FooScan, FooErrorModel>
    decreases es.len(),
{
    if es.len() == 0 {
        Ok(FooScan { a: None, b: None, rest: Seq::empty() })
    } else {
        match scan_foo(es.drop_last()) {
            Err(e) => Err(e),
            Ok(st) => {
                let (k, v) = es.last();
                if k == a_key() {
                    if st.a is Some {
                        Err(FooErrorModel::Duplicate(FooField::A))
                    } else {
                        match usize_value(v) {
                            None => Err(FooErrorModel::Invalid(FooField::A, v)),
                            Some(n) => Ok(FooScan { a: Some(n), ..st }),
                        }
                    }
                } else if k == b_key() {
                    if st.b is Some {
                        Err(FooErrorModel::Duplicate(FooField::B))
                    } else {
                        match v {
                            ValueModel::Text(t) => Ok(FooScan { b: Some(t), ..st }),
                            _ => Err(FooErrorModel::Invalid(FooField::B, v)),
                        }
                    }
                } else {
                    Ok(FooScan { rest: st.rest.push((k, v)), ..st })
                }
            },
        }
    }
}

/// The top-level record that the entries describe: `a`, `b`, and the records
/// of the dotted keys `fields.<name>.<property>`.
pub open spec fn foo_model(es: Seq<EntryModel>) -> Result<
    (usize, Seq<char>, Seq<(Seq<char>, PropsModel)>),
    FooErrorModel,
> {
    match scan_foo(es) {
        Err(e) => Err(e),
        Ok(st) => match st.a {
            None => Err(FooErrorModel::Missing(FooField::A)),
            Some(a) => match st.b {
                None => Err(FooErrorModel::Missing(FooField::B)),
                Some(b) => match collect_model(st.rest, false) {
                    Err(e) => Err(FooErrorModel::Fields(e)),
                    Ok(f) => Ok((a, b, f)),
                },
            },
        },
    }
}

/// The top-level record.
#[derive(Debug)]
pub struct Foo {
    pub a: usize,
    pub b: String,
    pub fields: Vec<(String, Properties)>,
}

/// Why the top-level record could not be built.
#[derive(Debug)]
pub enum FooError {
    DuplicateField(FooField),
    InvalidField(FooField, FieldValue),
    MissingField(FooField),
    Fields(FieldsError),
}

pub open spec fn foo_error_view(e: FooError) -> FooErrorModel {
    match e {
        FooError::DuplicateField(f) => FooErrorModel::Duplicate(f),
        FooError::InvalidField(f, v) => FooErrorModel::Invalid(f, v@),
        FooError::MissingField(f) => FooErrorModel::Missing(f),
        FooError::Fields(e) => FooErrorModel::Fields(error_view(e)),
    }
}

pub open spec fn foo_result_view(r: Result<Foo, FooError>) -> Result<
    (usize, Seq<char>, Seq<(Seq<char>, PropsModel)>),
    FooErrorModel,
> {
    match r {
        Ok(f) => Ok((f.a, f.b@, named_props_view(f.fields@))),
        Err(e) => Err(foo_error_view(e)),
    }
}

/// Once scanning a prefix has failed, scanning the whole fails the same way.
proof fn lemma_scan_foo_prefix_error(es: Seq<EntryModel>, i: int)
    requires
        0 <= i <= es.len(),
        scan_foo(es.take(i)) is Err,
    ensures
        scan_foo(es) == scan_foo(es.take(i)),
    decreases es.len() - i,
{
    if i < es.len() {
        assert(es.take(i + 1).drop_last() == es.take(i));
        lemma_scan_foo_prefix_error(es, i + 1);
    } else {
        assert(es.take(i) == es);
    }
}

fn literal_a() -> (r: String)
    ensures
        r@ == a_key(),
{
    proof {
        reveal_strlit("a");
    }
    String::from_str("a")
}

fn literal_b() -> (r: String)
    ensures
        r@ == b_key(),
{
    proof {
        reveal_strlit("b");
    }
    String::from_str("b")
}

impl Foo {
    /// Builds the top-level record from its entries, in the order in which
    /// they appear (see `foo_model`).
    pub fn from_entries(es: &Vec<(String, FieldValue)>) -> (r: Result<Foo, FooError>)
        ensures
            foo_result_view(r) == foo_model(entries_view(es@)),
    {
        let ghost view = entries_view(es@);
        let a_name = literal_a();
        let b_name = literal_b();
        let mut a: Option<usize> = None;
        let mut b: Option<String> = None;
        let mut rest: Vec<(String, FieldValue)> = Vec::new();
        let mut i: usize = 0;
        assert(view.take(0) == Seq::<EntryModel>::empty());
        assert(entries_view(rest@) == Seq::<EntryModel>::empty());
        while i < es.len()
            invariant
                i <= es@.len(),
                view == entries_view(es@),
                a_name@ == a_key(),
                b_name@ == b_key(),
                scan_foo(view.take(i as int)) == Ok::<FooScan, FooErrorModel>(
                    FooScan { a, b: text_view(b), rest: entries_view(rest@) },
                ),
            decreases es@.len() - i,
        {
            assert(view.take(i + 1).drop_last() == view.take(i as int));
            assert(view.take(i + 1).last() == view[i as int]);
            if es[i].0 == a_name {
                if a.is_some() {
                    proof {
                        lemma_scan_foo_prefix_error(view, i + 1);
                    }
                    return Err(FooError::DuplicateField(FooField::A));
                }
                let n: usize = match &es[i].1 {
                    FieldValue::Unsigned(n) => {
                        if *n <= usize::MAX as u64 {
                            *n as usize
                        } else {
                            proof {
                                lemma_scan_foo_prefix_error(view, i + 1);
                            }
                            return Err(FooError::InvalidField(FooField::A, FieldValue::Unsigned(*n)));
                        }
                    },
                    FieldValue::Signed(n) => {
                        if 0 <= *n && *n as u64 <= usize::MAX as u64 {
                            *n as usize
                        } else {
                            proof {
                                lemma_scan_foo_prefix_error(view, i + 1);
                            }
                            return Err(FooError::InvalidField(FooField::A, FieldValue::Signed(*n)));
                        }
                    },
                    other => {
                        proof {
                            lemma_scan_foo_prefix_error(view, i + 1);
                        }
                        return Err(FooError::InvalidField(FooField::A, copy_value(other)));
                    },
                };
                a = Some(n);
            } else if es[i].0 == b_name {
                if b.is_some() {
                    proof {
                        lemma_scan_foo_prefix_error(view, i + 1);
                    }
                    return Err(FooError::DuplicateField(FooField::B));
                }
                match &es[i].1 {
                    FieldValue::Text(t) => {
                        b = Some(t.clone());
                    },
                    other => {
                        proof {
                            lemma_scan_foo_prefix_error(view, i + 1);
                        }
                        return Err(FooError::InvalidField(FooField::B, copy_value(other)));
                    },
                }
            } else {
                let ghost before = rest@;
                rest.push((es[i].0.clone(), copy_value(&es[i].1)));
                assert(entries_view(rest@) == entries_view(before).push(view[i as int]));
            }
            i = i + 1;
        }
        assert(view.take(i as int) == view);
        let a = match a {
            None => {
                return Err(FooError::MissingField(FooField::A));
            },
            Some(a) => a,
        };
        let b = match b {
            None => {
                return Err(FooError::MissingField(FooField::B));
            },
            Some(b) => b,
        };
        match deserialize_fields(&rest) {
            Err(e) => Err(FooError::Fields(e)),
            Ok(fields) => Ok(Foo { a, b, fields }),
        }
    }
}

// ---------------------------------------------------------------------------
// Error messages
// ---------------------------------------------------------------------------

/// The text that `Debug` writes for a string: the string quoted, with its
/// special characters escaped.
pub uninterp spec fn debug_text(s: Seq<char>) -> Seq<char>;

/// A string as `Debug` writes it (`<str as Debug>::fmt`).
/// Claimed: the text is a function of the string alone.
#[verifier::external_body]
fn debug_string(s: &str) -> (r: String)
    ensures
        r@ == debug_text(s@),
{
    format!("{:?}", s)
}

/// How an error message names a value: `boolean `true``, `integer `5``,
/// `string "x"`, `null`, or the value's own description.
pub open spec fn described(v: ValueModel) -> Seq<char> {
    match v {
        ValueModel::Bool(b) => "boolean `"@ + (if b {
            "true"@
        } else {
            "false"@
        }) + "`"@,
        ValueModel::Unsigned(n) => "integer `"@ + decimal(n as nat) + "`"@,
        ValueModel::Signed(n) => "integer `"@ + signed_decimal(n as int) + "`"@,
        ValueModel::Text(t) => "string "@ + debug_text(t),
        ValueModel::Null => "null"@,
        ValueModel::Other(d) => d,
    }
}

/// A value is a number (so a rejected one is an invalid value rather than
/// one of an invalid type).
pub open spec fn is_number(v: ValueModel) -> bool {
    v is Unsigned || v is Signed
}

/// How an error message names a value (see `described`).
pub fn describe_value(v: &FieldValue) -> (r: String)
    ensures
        r@ == described(v@),
{
    match v {
        FieldValue::Bool(b) => {
            let mut r = String::from_str("boolean `");
            r.append(if *b { "true" } else { "false" });
            r.append("`");
            r
        },
        FieldValue::Unsigned(n) => {
            let mut r = String::from_str("integer `");
            push_decimal(&mut r, *n);
            r.append("`");
            r
        },
        FieldValue::Signed(n) => {
            let mut r = String::from_str("integer `");
            push_signed_decimal(&mut r, *n);
            r.append("`");
            r
        },
        FieldValue::Text(t) => {
            let mut r = String::from_str("string ");
            let d = debug_string(t.as_str());
            r.append(d.as_str());
            r
        },
        FieldValue::Null => String::from_str("null"),
        FieldValue::Other(d) => d.clone(),
    }
}

/// The message of an error.
pub open spec fn error_text(e: ErrorModel) -> Seq<char>
    decreases e,
{
    match e {
        ErrorModel::KeyFormat { key, nested } => if nested {
            "expected key in format `<name>.<property>`, got `"@ + key + "`"@
        } else {
            "expected key in format `fields.<name>.<property>`, got `"@ + key + "`"@
        },
        ErrorModel::Property { name, cause } => "failed to deserialize `fields."@ + name + "`: "@
            + cause_text(cause),
    }
}

/// The message of the cause of an error, in the form that values read back
/// from a value tree report: `Invalid type <value>. Expected a string`,
/// `Invalid value <number>. Expected u8`, `Invalid type <value>. Expected u8`.
pub open spec fn cause_text(c: CauseModel) -> Seq<char>
    decreases c,
{
    match c {
        CauseModel::TextExpected(v) => "Invalid type "@ + described(v) + ". Expected a string"@,
        CauseModel::ByteExpected(v) => (if is_number(v) {
            "Invalid value "@
        } else {
            "Invalid type "@
        }) + described(v) + ". Expected u8"@,
        CauseModel::Nested(e) => error_text(*e),
    }
}

impl FieldsError {
    /// The message of the error (see `error_text`).
    pub fn message(&self) -> (m: String)
        ensures
            m@ == error_text(error_view(*self)),
        decreases *self,
    {
        match self {
            FieldsError::KeyFormat { key, nested } => {
                let mut m = if *nested {
                    String::from_str("expected key in format `<name>.<property>`, got `")
                } else {
                    String::from_str("expected key in format `fields.<name>.<property>`, got `")
                };
                m.append(key.as_str());
                m.append("`");
                m
            },
            FieldsError::Property { name, cause } => {
                let mut m = String::from_str("failed to deserialize `fields.");
                m.append(name.as_str());
                m.append("`: ");
                let c = cause.message();
                m.append(c.as_str());
                m
            },
        }
    }
}

impl PropertyError {
    /// The message of the cause (see `cause_text`).
    pub fn message(&self) -> (m: String)
        ensures
            m@ == cause_text(cause_view(*self)),
        decreases *self,
    {
        match self {
            PropertyError::TextExpected(v) => {
                let mut m = String::from_str("Invalid type ");
                let d = describe_value(v);
                m.append(d.as_str());
                m.append(". Expected a string");
                m
            },
            PropertyError::ByteExpected(v) => {
                let number = match v {
                    FieldValue::Unsigned(_) | FieldValue::Signed(_) => true,
                    _ => false,
                };
                let mut m = if number {
                    String::from_str("Invalid value ")
                } else {
                    String::from_str("Invalid type ")
                };
                let d = describe_value(v);
                m.append(d.as_str());
                m.append(". Expected u8");
                m
            },
            PropertyError::Nested(e) => e.message(),
        }
    }
}

/// The name of a field of the top-level record.
pub open spec fn field_name(f: FooField) -> Seq<char> {
    match f {
        FooField::A => "a"@,
        FooField::B => "b"@,
    }
}

/// The message of an error of the top-level record, in the words a JSON
/// reader uses for it, without the position (` at line L column C`) that
/// such a reader adds after them: `duplicate field `a``, `missing field `b``,
/// `invalid value: integer `-1`, expected usize`,
/// `invalid type: null, expected a string`, or the message of the dotted keys.
pub open spec fn foo_error_text(e: FooErrorModel) -> Seq<char> {
    match e {
        FooErrorModel::Duplicate(f) => "duplicate field `"@ + field_name(f) + "`"@,
        FooErrorModel::Missing(f) => "missing field `"@ + field_name(f) + "`"@,
        FooErrorModel::Invalid(FooField::A, v) => (if is_number(v) {
            "invalid value: "@
        } else {
            "invalid type: "@
        }) + described(v) + ", expected usize"@,
        FooErrorModel::Invalid(FooField::B, v) => "invalid type: "@ + described(v)
            + ", expected a string"@,
        FooErrorModel::Fields(e) => error_text(e),
    }
}

fn field_name_str(f: FooField) -> (r: &'static str)
    ensures
        r@ == field_name(f),
{
    match f {
        FooField::A => "a",
        FooField::B => "b",
    }
}

impl FooError {
    /// The message of the error (see `foo_error_text`).
    pub fn message(&self) -> (m: String)
        ensures
            m@ == foo_error_text(foo_error_view(*self)),
    {
        match self {
            FooError::DuplicateField(f) => {
                let mut m = String::from_str("duplicate field `");
                m.append(field_name_str(*f));
                m.append("`");
                m
            },
            FooError::MissingField(f) => {
                let mut m = String::from_str("missing field `");
                m.append(field_name_str(*f));
                m.append("`");
                m
            },
            FooError::InvalidField(FooField::A, v) => {
                let number = match v {
                    FieldValue::Unsigned(_) | FieldValue::Signed(_) => true,
                    _ => false,
                };
                let mut m = if number {
                    String::from_str("invalid value: ")
                } else {
                    String::from_str("invalid type: ")
                };
                let d = describe_value(v);
                m.append(d.as_str());
                m.append(", expected usize");
                m
            },
            FooError::InvalidField(FooField::B, v) => {
                let mut m = String::from_str("invalid type: ");
                let d = describe_value(v);
                m.append(d.as_str());
                m.append(", expected a string");
                m
            },
            FooError::Fields(e) => e.message(),
        }
    }
}

// ---------------------------------------------------------------------------
// Laws
// ---------------------------------------------------------------------------

/// No `.` in `s`.
pub open spec fn dot_free(s: Seq<char>) -> bool {
    forall|k: int| 0 <= k < s.len() ==> s[k] != '.'
}

/// What `dot_index` finds is the first `.`; when it finds none there is none.
proof fn lemma_dot_index_first(s: Seq<char>)
    ensures
        dot_index(s) matches Some(i) ==> dot_free(s.take(i as int)),
        dot_index(s) is None ==> dot_free(s),
    decreases s.len(),
{
    lemma_dot_index_in_range(s);
    if s.len() > 0 && s[0] != '.' {
        lemma_dot_index_first(s.drop_first());
        lemma_dot_index_in_range(s.drop_first());
        if let Some(i) = dot_index(s) {
            assert forall|k: int| 0 <= k < i implies #[trigger] s.take(i as int)[k] != '.' by {
                if k > 0 {
                    assert(s.take(i as int)[k] == s[k]);
                    assert(s[k] == s.drop_first()[k - 1]);
                    assert(s.drop_first()[k - 1] == s.drop_first().take(i - 1)[k - 1]);
                }
            }
        } else {
            assert forall|k: int| 0 <= k < s.len() implies s[k] != '.' by {
                if k > 0 {
                    assert(s[k] == s.drop_first()[k - 1]);
                }
            }
        }
    }
}

/// Cutting `a.b` at its first `.`, when `a` has none, gives back `a` and `b`.
proof fn lemma_split_once_join(a: Seq<char>, b: Seq<char>)
    requires
        dot_free(a),
    ensures
        split_once(a + seq!['.'] + b) == Some((a, b)),
{
    let s = a + seq!['.'] + b;
    assert forall|k: int| 0 <= k < a.len() implies s[k] != '.' by {
        assert(s[k] == a[k]);
    }
    lemma_dot_index_found(s, a.len() as int);
    assert(s.take(a.len() as int) == a);
    assert(s.skip(a.len() + 1 as int) == b);
}

/// A text cut at its first `.` is the part before, the `.`, and the part
/// after, and the part before holds no `.`.
proof fn lemma_split_once_parts(s: Seq<char>)
    ensures
        split_once(s) matches Some((a, b)) ==> s == a + seq!['.'] + b && dot_free(a),
{
    lemma_dot_index_first(s);
    lemma_dot_index_in_range(s);
    if let Some(i) = dot_index(s) {
        assert(s == s.take(i as int) + seq!['.'] + s.skip(i + 1 as int));
    }
}

/// The text that stands for property `k2` of the record named `k1`:
/// `fields.<k1>.<k2>` at the top level, `<k1>.<k2>` in a nested record.
pub open spec fn joined_key(k1: Seq<char>, k2: Seq<char>, nested: bool) -> Seq<char> {
    if nested {
        k1 + seq!['.'] + k2
    } else {
        fields_key() + seq!['.'] + k1 + seq!['.'] + k2
    }
}

/// A key stands for a name and a property exactly when it is the joined key
/// of that name (which holds no `.`) and that property (which may hold dots).
pub proof fn lemma_key_parts_exact(key: Seq<char>, nested: bool, k1: Seq<char>, k2: Seq<char>)
    ensures
        key_parts(key, nested) == Some((k1, k2)) <==> (dot_free(k1) && key == joined_key(
            k1,
            k2,
            nested,
        )),
{
    lemma_split_once_parts(key);
    if nested {
        if dot_free(k1) && key == joined_key(k1, k2, nested) {
            lemma_split_once_join(k1, k2);
        }
    } else {
        if let Some((head, rest)) = split_once(key) {
            lemma_split_once_parts(rest);
            if key_parts(key, nested) == Some((k1, k2)) {
                assert(key == fields_key() + seq!['.'] + (k1 + seq!['.'] + k2));
                assert(key == joined_key(k1, k2, nested));
            }
        }
        if dot_free(k1) && key == joined_key(k1, k2, nested) {
            let f = fields_key();
            assert(dot_free(f));
            assert(key == f + seq!['.'] + (k1 + seq!['.'] + k2));
            lemma_split_once_join(f, k1 + seq!['.'] + k2);
            lemma_split_once_join(k1, k2);
        }
    }
}

/// The names of the groups are distinct, and so are the keys within each
/// group.
pub open spec fn groups_distinct(gs: Seq<GroupModel>) -> bool {
    &&& forall|i: int, j: int| 0 <= i < j < gs.len() ==> #[trigger] gs[i].0 != #[trigger] gs[j].0
    &&& forall|i: int| 0 <= i < gs.len() ==> keys_distinct(#[trigger] gs[i].1)
}

/// The keys of the entries are distinct.
pub open spec fn keys_distinct(es: Seq<EntryModel>) -> bool {
    forall|i: int, j: int| 0 <= i < j < es.len() ==> #[trigger] es[i].0 != #[trigger] es[j].0
}

proof fn lemma_insert_entry_distinct(es: Seq<EntryModel>, k: Seq<char>, v: ValueModel)
    requires
        keys_distinct(es),
    ensures
        keys_distinct(insert_entry(es, k, v)),
{
    lemma_key_index_in_range(es, k);
    let fs = insert_entry(es, k, v);
    assert forall|i: int, j: int| 0 <= i < j < fs.len() implies #[trigger] fs[i].0 != #[trigger] fs[j].0 by {
        match key_index(es, k) {
            Some(x) => {
                if i != x && j != x {
                    assert(fs[i] == es[i] && fs[j] == es[j]);
                } else if i == x {
                    assert(fs[j] == es[j]);
                    assert(es[x as int].0 == k);
                } else {
                    assert(fs[i] == es[i]);
                    assert(es[x as int].0 == k);
                }
            },
            None => {
                if j < es.len() {
                    assert(fs[i] == es[i] && fs[j] == es[j]);
                } else {
                    assert(fs[i] == es[i]);
                }
            },
        }
    }
}

proof fn lemma_insert_grouped_distinct(
    gs: Seq<GroupModel>,
    k1: Seq<char>,
    k2: Seq<char>,
    v: ValueModel,
)
    requires
        groups_distinct(gs),
    ensures
        groups_distinct(insert_grouped(gs, k1, k2, v)),
{
    lemma_group_index_in_range(gs, k1);
    let hs = insert_grouped(gs, k1, k2, v);
    match group_index(gs, k1) {
        Some(x) => {
            assert(keys_distinct(gs[x as int].1));
            lemma_insert_entry_distinct(gs[x as int].1, k2, v);
            assert forall|i: int, j: int| 0 <= i < j < hs.len() implies #[trigger] hs[i].0
                != #[trigger] hs[j].0 by {
                assert(hs[i].0 == gs[i].0 && hs[j].0 == gs[j].0);
            }
            assert forall|i: int| 0 <= i < hs.len() implies keys_distinct(#[trigger] hs[i].1) by {
                if i != x {
                    assert(hs[i] == gs[i]);
                }
            }
        },
        None => {
            assert forall|i: int, j: int| 0 <= i < j < hs.len() implies #[trigger] hs[i].0
                != #[trigger] hs[j].0 by {
                if j < gs.len() {
                    assert(hs[i] == gs[i] && hs[j] == gs[j]);
                } else {
                    assert(hs[i] == gs[i]);
                }
            }
            assert forall|i: int| 0 <= i < hs.len() implies keys_distinct(#[trigger] hs[i].1) by {
                if i < gs.len() {
                    assert(hs[i] == gs[i]);
                }
            }
        },
    }
}

/// Gathering gives each name one group, and each property one entry in it.
pub proof fn lemma_group_entries_distinct(es: Seq<EntryModel>, nested: bool)
    ensures
        group_entries(es, nested) matches Ok(gs) ==> groups_distinct(gs),
    decreases es.len(),
{
    if es.len() > 0 {
        lemma_group_entries_distinct(es.drop_last(), nested);
        if let Ok(gs) = group_entries(es.drop_last(), nested) {
            if let Some((k1, k2)) = key_parts(es.last().0, nested) {
                lemma_insert_grouped_distinct(gs, k1, k2, es.last().1);
            }
        }
    }
}

proof fn lemma_group_index_update(gs: Seq<GroupModel>, i: int, g: GroupModel, k: Seq<char>)
    requires
        0 <= i < gs.len(),
        g.0 == gs[i].0,
    ensures
        group_index(gs.update(i, g), k) == group_index(gs, k),
    decreases gs.len(),
{
    let hs = gs.update(i, g);
    if i < gs.len() - 1 {
        assert(hs.drop_last() == gs.drop_last().update(i, g));
        lemma_group_index_update(gs.drop_last(), i, g, k);
    } else {
        assert(hs.drop_last() == gs.drop_last());
    }
}

proof fn lemma_group_index_push(gs: Seq<GroupModel>, g: GroupModel, k: Seq<char>)
    ensures
        group_index(gs.push(g), k) == if g.0 == k {
            Some(gs.len())
        } else {
            group_index(gs, k)
        },
{
    assert(gs.push(g).drop_last() == gs);
}

proof fn lemma_key_index_update(es: Seq<EntryModel>, i: int, e: EntryModel, k: Seq<char>)
    requires
        0 <= i < es.len(),
        e.0 == es[i].0,
    ensures
        key_index(es.update(i, e), k) == key_index(es, k),
    decreases es.len(),
{
    let fs = es.update(i, e);
    if i < es.len() - 1 {
        assert(fs.drop_last() == es.drop_last().update(i, e));
        lemma_key_index_update(es.drop_last(), i, e, k);
    } else {
        assert(fs.drop_last() == es.drop_last());
    }
}

proof fn lemma_key_index_push(es: Seq<EntryModel>, e: EntryModel, k: Seq<char>)
    ensures
        key_index(es.push(e), k) == if e.0 == k {
            Some(es.len())
        } else {
            key_index(es, k)
        },
{
    assert(es.push(e).drop_last() == es);
}

/// After setting `k` to `v`, looking up `k` gives `v`, and looking up any
/// other key gives what it gave before.
pub proof fn lemma_insert_entry_lookup(es: Seq<EntryModel>, k: Seq<char>, v: ValueModel, q: Seq<char>)
    ensures
        lookup(insert_entry(es, k, v), q) == if q == k {
            Some(v)
        } else {
            lookup(es, q)
        },
{
    lemma_key_index_in_range(es, k);
    lemma_key_index_in_range(es, q);
    match key_index(es, k) {
        Some(x) => {
            lemma_key_index_update(es, x as int, (k, v), q);
            if q == k {
                assert(key_index(es, q) == Some(x));
            }
        },
        None => {
            lemma_key_index_push(es, (k, v), q);
        },
    }
}

/// Property `k2` of group `k1` after gathering one more entry for
/// `(l1, l2)`: the new value when `(k1, k2)` is `(l1, l2)`, the old one
/// otherwise.
proof fn lemma_insert_grouped_lookup(
    gs: Seq<GroupModel>,
    l1: Seq<char>,
    l2: Seq<char>,
    v: ValueModel,
    k1: Seq<char>,
    k2: Seq<char>,
    w: ValueModel,
)
    ensures
        ({
            let hs = insert_grouped(gs, l1, l2, v);
            &&& (k1 == l1 && k2 == l2) ==> (group_index(hs, k1) matches Some(x) && lookup(
                hs[x as int].1,
                k2,
            ) == Some(v))
            &&& (!(k1 == l1 && k2 == l2) && (group_index(gs, k1) matches Some(x) && lookup(
                gs[x as int].1,
                k2,
            ) == Some(w))) ==> (group_index(hs, k1) matches Some(y) && lookup(hs[y as int].1, k2)
                == Some(w))
        }),
{
    let hs = insert_grouped(gs, l1, l2, v);
    lemma_group_index_in_range(gs, l1);
    lemma_group_index_in_range(gs, k1);
    match group_index(gs, l1) {
        Some(x) => {
            let g = (l1, insert_entry(gs[x as int].1, l2, v));
            lemma_group_index_update(gs, x as int, g, k1);
            lemma_insert_entry_lookup(gs[x as int].1, l2, v, k2);
        },
        None => {
            lemma_group_index_push(gs, (l1, seq![(l2, v)]), k1);
            assert(seq![(l2, v)].drop_last() == Seq::<EntryModel>::empty());
            if let Some(x) = group_index(gs, k1) {
                assert(hs[x as int] == gs[x as int]);
            }
        },
    }
}

/// Later entries override earlier ones: the entry for a name and a property
/// that no later entry names again is what gathering keeps as the value of
/// that property in the group of that name.
pub proof fn lemma_group_entries_last_wins(
    es: Seq<EntryModel>,
    nested: bool,
    j: int,
    k1: Seq<char>,
    k2: Seq<char>,
)
    requires
        0 <= j < es.len(),
        key_parts(es[j].0, nested) == Some((k1, k2)),
        forall|m: int| j < m < es.len() ==> key_parts(#[trigger] es[m].0, nested) != Some((k1, k2)),
    ensures
        group_entries(es, nested) matches Ok(gs) ==> (group_index(gs, k1) matches Some(x) && lookup(
            gs[x as int].1,
            k2,
        ) == Some(es[j].1)),
    decreases es.len(),
{
    let prefix = es.drop_last();
    if let Ok(gs) = group_entries(es, nested) {
        if let Ok(ps) = group_entries(prefix, nested) {
            if let Some((l1, l2)) = key_parts(es.last().0, nested) {
                lemma_insert_grouped_lookup(ps, l1, l2, es.last().1, k1, k2, es[j].1);
                assert(gs == insert_grouped(ps, l1, l2, es.last().1));
                if j == es.len() - 1 {
                    assert(es.last() == es[j]);
                    assert(l1 == k1 && l2 == k2);
                }
                if j < es.len() - 1 {
                    assert forall|m: int| j < m < prefix.len() implies key_parts(
                        #[trigger] prefix[m].0,
                        nested,
                    ) != Some((k1, k2)) by {
                        assert(prefix[m] == es[m]);
                    }
                    assert(prefix[j] == es[j]);
                    lemma_group_entries_last_wins(prefix, nested, j, k1, k2);
                    assert(key_parts(es[es.len() - 1].0, nested) != Some((k1, k2)));
                }
            }
        }
    }
}

/// Building records keeps the groups' names and order, and builds each
/// record from its own group's entries.
pub proof fn lemma_build_groups_pointwise(gs: Seq<GroupModel>)
    ensures
        build_groups(gs) matches Ok(rs) ==> {
            &&& rs.len() == gs.len()
            &&& forall|i: int|
                0 <= i < gs.len() ==> #[trigger] rs[i].0 == gs[i].0 && props_model(gs[i].1) == Ok::<
                    PropsModel,
                    CauseModel,
                >(rs[i].1)
        },
    decreases gs.len(),
{
    if gs.len() > 0 {
        lemma_build_groups_pointwise(gs.drop_last());
        if let Ok(rs) = build_groups(gs) {
            if let Ok(done) = build_groups(gs.drop_last()) {
                assert forall|i: int| 0 <= i < gs.len() implies #[trigger] rs[i].0 == gs[i].0
                    && props_model(gs[i].1) == Ok::<PropsModel, CauseModel>(rs[i].1) by {
                    if i < gs.len() - 1 {
                        assert(rs[i] == done[i]);
                        assert(gs[i] == gs.drop_last()[i]);
                    }
                }
            }
        }
    }
}

/// The records that gathering gives have distinct names, one per name that
/// the keys mention.
pub proof fn lemma_collect_names_distinct(es: Seq<EntryModel>, nested: bool)
    ensures
        collect_model(es, nested) matches Ok(rs) ==> forall|i: int, j: int|
            0 <= i < j < rs.len() ==> #[trigger] rs[i].0 != #[trigger] rs[j].0,
{
    lemma_group_entries_distinct(es, nested);
    if let Ok(gs) = group_entries(es, nested) {
        lemma_build_groups_pointwise(gs);
        if let Ok(rs) = build_groups(gs) {
            assert forall|i: int, j: int| 0 <= i < j < rs.len() implies #[trigger] rs[i].0
                != #[trigger] rs[j].0 by {
                assert(rs[i].0 == gs[i].0);
                assert(rs[j].0 == gs[j].0);
            }
        }
    }
}

// ---------------------------------------------------------------------------
// The order of the entries does not matter
// ---------------------------------------------------------------------------

/// Two lists hold the same entries (in any order).
pub open spec fn same_entries(a: Seq<EntryModel>, b: Seq<EntryModel>) -> bool {
    forall|e: EntryModel| a.contains(e) <==> b.contains(e)
}

/// Two records agree: the same `f1` and `f2`, and nested records that agree
/// by name, whatever their order.
pub open spec fn props_equiv(p: PropsModel, q: PropsModel) -> bool
    decreases p,
{
    &&& p.f1 == q.f1
    &&& p.f2 == q.f2
    &&& recs_equiv(p.nested, q.nested)
}

/// Two lists of named records agree by name, whatever their order: each
/// record of the first is matched in the second, and each name of the second
/// is a name of the first.
pub open spec fn recs_equiv(a: Seq<(Seq<char>, PropsModel)>, b: Seq<(Seq<char>, PropsModel)>) -> bool
    decreases a,
{
    &&& forall|i: int| 0 <= i < a.len() ==> #[trigger] matched_in(a[i], b)
    &&& forall|j: int| 0 <= j < b.len() ==> #[trigger] named_among(b[j], a)
}

/// `b` holds a record of the name of `r` that agrees with it.
pub open spec fn matched_in(r: (Seq<char>, PropsModel), b: Seq<(Seq<char>, PropsModel)>) -> bool
    decreases r,
{
    exists|j: int| 0 <= j < b.len() && b[j].0 == r.0 && props_equiv(r.1, #[trigger] b[j].1)
}

/// `a` holds a record of the name of `r`.
pub open spec fn named_among(r: (Seq<char>, PropsModel), a: Seq<(Seq<char>, PropsModel)>) -> bool {
    exists|i: int| 0 <= i < a.len() && #[trigger] a[i].0 == r.0
}

/// The entries hold the same last value for every key.
pub open spec fn same_lookups(a: Seq<EntryModel>, b: Seq<EntryModel>) -> bool {
    forall|k: Seq<char>| #![trigger lookup(a, k)] #![trigger lookup(b, k)] lookup(a, k) == lookup(b, k)
}

/// The value gathered as property `k2` of the group named `k1`.
pub open spec fn grouped_value(gs: Seq<GroupModel>, k1: Seq<char>, k2: Seq<char>) -> Option<ValueModel> {
    match group_index(gs, k1) {
        Some(x) => lookup(gs[x as int].1, k2),
        None => None,
    }
}

/// The value that the entries give property `k2` of the record named `k1`.
pub open spec fn entry_value(es: Seq<EntryModel>, nested: bool, k1: Seq<char>, k2: Seq<char>) -> Option<
    ValueModel,
> {
    if dot_free(k1) {
        lookup(es, joined_key(k1, k2, nested))
    } else {
        None
    }
}

proof fn lemma_lookup_push(es: Seq<EntryModel>, e: EntryModel, k: Seq<char>)
    ensures
        lookup(es.push(e), k) == if e.0 == k {
            Some(e.1)
        } else {
            lookup(es, k)
        },
{
    lemma_key_index_push(es, e, k);
    lemma_key_index_in_range(es, k);
    if let Some(i) = key_index(es, k) {
        assert(es.push(e)[i as int] == es[i as int]);
    }
}

/// With distinct keys, looking a key up finds exactly the entry with it.
proof fn lemma_lookup_contains(es: Seq<EntryModel>, k: Seq<char>, v: ValueModel)
    requires
        keys_distinct(es),
    ensures
        lookup(es, k) == Some(v) <==> es.contains((k, v)),
{
    lemma_key_index_in_range(es, k);
    if es.contains((k, v)) {
        let j = choose|j: int| 0 <= j < es.len() && es[j] == (k, v);
        if let Some(i) = key_index(es, k) {
            if i != j {
                if i < j {
                    assert(es[i as int].0 != es[j].0);
                } else {
                    assert(es[j].0 != es[i as int].0);
                }
            }
        } else {
            assert(es[j].0 != k);
        }
    }
    if let Some(i) = key_index(es, k) {
        if lookup(es, k) == Some(v) {
            assert(es[i as int] == (k, v));
        }
    }
}

/// Two lists with distinct keys that hold the same entries give the same
/// value for every key.
proof fn lemma_same_entries_lookups(a: Seq<EntryModel>, b: Seq<EntryModel>)
    requires
        keys_distinct(a),
        keys_distinct(b),
        same_entries(a, b),
    ensures
        same_lookups(a, b),
{
    assert forall|k: Seq<char>| #![trigger lookup(a, k)] #![trigger lookup(b, k)] lookup(a, k) == lookup(b, k) by {
        if let Some(v) = lookup(a, k) {
            lemma_lookup_contains(a, k, v);
            lemma_lookup_contains(b, k, v);
        }
        if let Some(v) = lookup(b, k) {
            lemma_lookup_contains(a, k, v);
            lemma_lookup_contains(b, k, v);
        }
    }
}

/// A list with an entry gives a value for that entry's key.
proof fn lemma_lookup_nonempty(es: Seq<EntryModel>)
    requires
        es.len() > 0,
    ensures
        lookup(es, es[0].0) is Some,
{
    lemma_key_index_in_range(es, es[0].0);
}

/// The unclaimed entries give the values of the entries, but for `f1` and `f2`.
proof fn lemma_unclaimed_lookup(es: Seq<EntryModel>, k: Seq<char>)
    ensures
        lookup(unclaimed(es), k) == if k == f1_key() || k == f2_key() {
            None
        } else {
            lookup(es, k)
        },
    decreases es.len(),
{
    if es.len() == 0 {
        assert(key_index(unclaimed(es), k) is None);
    } else {
        let p = es.drop_last();
        lemma_unclaimed_lookup(p, k);
        assert(p.push(es.last()) == es);
        lemma_lookup_push(p, es.last(), k);
        if !(es.last().0 == f1_key() || es.last().0 == f2_key()) {
            lemma_lookup_push(unclaimed(p), es.last(), k);
        }
    }
}

/// Gathering one more entry sets exactly one property of one group.
proof fn lemma_insert_grouped_value(
    gs: Seq<GroupModel>,
    l1: Seq<char>,
    l2: Seq<char>,
    v: ValueModel,
    k1: Seq<char>,
    k2: Seq<char>,
)
    ensures
        grouped_value(insert_grouped(gs, l1, l2, v), k1, k2) == if k1 == l1 && k2 == l2 {
            Some(v)
        } else {
            grouped_value(gs, k1, k2)
        },
{
    let hs = insert_grouped(gs, l1, l2, v);
    lemma_group_index_in_range(gs, l1);
    lemma_group_index_in_range(gs, k1);
    match group_index(gs, l1) {
        Some(x) => {
            let g = (l1, insert_entry(gs[x as int].1, l2, v));
            lemma_group_index_update(gs, x as int, g, k1);
            if k1 == l1 {
                lemma_insert_entry_lookup(gs[x as int].1, l2, v, k2);
            } else if let Some(y) = group_index(gs, k1) {
                assert(hs[y as int] == gs[y as int]);
            }
        },
        None => {
            lemma_group_index_push(gs, (l1, seq![(l2, v)]), k1);
            if k1 == l1 {
                lemma_lookup_push(Seq::<EntryModel>::empty(), (l2, v), k2);
                assert(Seq::<EntryModel>::empty().push((l2, v)) == seq![(l2, v)]);
                assert(key_index(Seq::<EntryModel>::empty(), k2) is None);
            } else if let Some(y) = group_index(gs, k1) {
                assert(hs[y as int] == gs[y as int]);
            }
        },
    }
}

/// What gathering keeps as a property of a group is the value of the key
/// that stands for that name and property.
proof fn lemma_group_entries_values(es: Seq<EntryModel>, nested: bool, k1: Seq<char>, k2: Seq<char>)
    ensures
        group_entries(es, nested) matches Ok(gs) ==> grouped_value(gs, k1, k2) == entry_value(
            es,
            nested,
            k1,
            k2,
        ),
    decreases es.len(),
{
    if es.len() == 0 {
        if let Ok(gs) = group_entries(es, nested) {
            assert(group_index(gs, k1) is None);
            assert(key_index(es, joined_key(k1, k2, nested)) is None);
        }
    } else {
        let p = es.drop_last();
        let e = es.last();
        lemma_group_entries_values(p, nested, k1, k2);
        if let Ok(gs) = group_entries(es, nested) {
            let ps = group_entries(p, nested)->Ok_0;
            let (l1, l2) = key_parts(e.0, nested)->Some_0;
            assert(gs == insert_grouped(ps, l1, l2, e.1));
            lemma_insert_grouped_value(ps, l1, l2, e.1, k1, k2);
            assert(p.push(e) == es);
            lemma_lookup_push(p, e, joined_key(k1, k2, nested));
            lemma_key_parts_exact(e.0, nested, k1, k2);
            lemma_key_parts_exact(e.0, nested, l1, l2);
        }
    }
}

/// Every group that gathering makes holds at least one entry.
proof fn lemma_group_entries_nonempty(es: Seq<EntryModel>, nested: bool)
    ensures
        group_entries(es, nested) matches Ok(gs) ==> forall|i: int|
            0 <= i < gs.len() ==> #[trigger] gs[i].1.len() > 0,
    decreases es.len(),
{
    if es.len() > 0 {
        let p = es.drop_last();
        let e = es.last();
        lemma_group_entries_nonempty(p, nested);
        if let Ok(gs) = group_entries(es, nested) {
            let ps = group_entries(p, nested)->Ok_0;
            let (l1, l2) = key_parts(e.0, nested)->Some_0;
            lemma_group_index_in_range(ps, l1);
            assert forall|i: int| 0 <= i < gs.len() implies #[trigger] gs[i].1.len() > 0 by {
                match group_index(ps, l1) {
                    Some(x) => {
                        if i == x {
                            lemma_key_index_in_range(ps[i].1, l2);
                        } else {
                            assert(gs[i] == ps[i]);
                        }
                    },
                    None => {
                        if i < ps.len() {
                            assert(gs[i] == ps[i]);
                        }
                    },
                }
            }
        }
    }
}

/// Gathering succeeds exactly when every key has the expected form.
proof fn lemma_group_entries_ok(es: Seq<EntryModel>, nested: bool)
    ensures
        group_entries(es, nested) is Ok <==> forall|k: Seq<char>|
            #[trigger] lookup(es, k) is Some ==> key_parts(k, nested) is Some,
    decreases es.len(),
{
    if es.len() == 0 {
        assert forall|k: Seq<char>| #[trigger] lookup(es, k) is Some implies key_parts(k, nested) is Some by {
            assert(key_index(es, k) is None);
        }
    } else {
        let p = es.drop_last();
        let e = es.last();
        lemma_group_entries_ok(p, nested);
        assert(p.push(e) == es);
        lemma_lookup_push(p, e, e.0);
        if group_entries(es, nested) is Ok {
            assert forall|k: Seq<char>| #[trigger] lookup(es, k) is Some implies key_parts(k, nested) is Some by {
                lemma_lookup_push(p, e, k);
            }
        } else if forall|k: Seq<char>| #[trigger] lookup(es, k) is Some ==> key_parts(k, nested) is Some {
            assert forall|k: Seq<char>| #[trigger] lookup(p, k) is Some implies key_parts(k, nested) is Some by {
                lemma_lookup_push(p, e, k);
                if e.0 != k {
                    assert(lookup(es, k) is Some);
                }
            }
            assert(lookup(es, e.0) is Some);
        }
    }
}

/// Building records succeeds exactly when every group's record can be built.
proof fn lemma_build_groups_ok(gs: Seq<GroupModel>)
    ensures
        build_groups(gs) is Ok <==> forall|i: int| 0 <= i < gs.len() ==> #[trigger] props_model(gs[i].1) is Ok,
    decreases gs.len(),
{
    if gs.len() > 0 {
        let p = gs.drop_last();
        lemma_build_groups_ok(p);
        assert(gs.last() == gs[gs.len() - 1]);
        if forall|i: int| 0 <= i < gs.len() ==> #[trigger] props_model(gs[i].1) is Ok {
            assert forall|i: int| 0 <= i < p.len() implies #[trigger] props_model(p[i].1) is Ok by {
                assert(p[i] == gs[i]);
            }
        }
        if build_groups(gs) is Ok {
            assert forall|i: int| 0 <= i < gs.len() implies #[trigger] props_model(gs[i].1) is Ok by {
                if i < p.len() {
                    assert(p[i] == gs[i]);
                }
            }
        } else if build_groups(p) is Err {
            let i = choose|i: int| 0 <= i < p.len() && !(#[trigger] props_model(p[i].1) is Ok);
            assert(p[i] == gs[i]);
        } else {
            assert(!(props_model(gs[gs.len() - 1].1) is Ok));
        }
    }
}

/// With distinct names, the group named `k` is the one at the index with that name.
proof fn lemma_group_index_distinct(gs: Seq<GroupModel>, i: int)
    requires
        groups_distinct(gs),
        0 <= i < gs.len(),
    ensures
        group_index(gs, gs[i].0) == Some(i as nat),
{
    lemma_group_index_in_range(gs, gs[i].0);
    if let Some(x) = group_index(gs, gs[i].0) {
        if x as int != i {
            if (x as int) < i {
                assert(gs[x as int].0 != gs[i].0);
            } else {
                assert(gs[i].0 != gs[x as int].0);
            }
        }
    }
}

/// Entries that give every key the same last value gather into the same
/// records: gathering succeeds for both or for neither, and the records agree
/// by name.
pub proof fn lemma_collect_same_lookups(es1: Seq<EntryModel>, es2: Seq<EntryModel>, nested: bool)
    requires
        same_lookups(es1, es2),
    ensures
        collect_model(es1, nested) is Ok <==> collect_model(es2, nested) is Ok,
        (collect_model(es1, nested) is Ok && collect_model(es2, nested) is Ok) ==> recs_equiv(
            collect_model(es1, nested)->Ok_0,
            collect_model(es2, nested)->Ok_0,
        ),
    decreases key_bound(es1), 0nat,
{
    lemma_group_entries_ok(es1, nested);
    lemma_group_entries_ok(es2, nested);
    if group_entries(es1, nested) is Ok {
        assert forall|k: Seq<char>| #[trigger] lookup(es2, k) is Some implies key_parts(k, nested) is Some by {
            assert(lookup(es1, k) == lookup(es2, k));
        }
    }
    if group_entries(es2, nested) is Ok {
        assert forall|k: Seq<char>| #[trigger] lookup(es1, k) is Some implies key_parts(k, nested) is Some by {
            assert(lookup(es1, k) == lookup(es2, k));
        }
    }
    if let (Ok(gs1), Ok(gs2)) = (group_entries(es1, nested), group_entries(es2, nested)) {
        lemma_groups_match(es1, es2, nested);
        lemma_groups_bound_above(gs1);
        if es1.len() > 0 {
            lemma_groups_bound_smaller(es1, nested);
        } else {
            lemma_group_entries_empty(es1, nested);
        }
        assert forall|i: int| 0 <= i < gs1.len() implies #[trigger] pairs_with(gs1[i], gs2) by {
            let y = group_index(gs2, gs1[i].0)->Some_0 as int;
            lemma_props_same_lookups(gs1[i].1, gs2[y].1);
        }
        assert forall|j: int| 0 <= j < gs2.len() implies #[trigger] named_in(gs2[j], gs1) by {
            let x = group_index(gs1, gs2[j].0)->Some_0 as int;
            lemma_props_same_lookups(gs1[x].1, gs2[j].1);
        }
        lemma_build_groups_paired(gs1, gs2);
    }
}

/// Group `g` has a group of its name in `gs` whose record is built exactly
/// when its own is, and agrees with it.
spec fn pairs_with(g: GroupModel, gs: Seq<GroupModel>) -> bool {
    group_index(gs, g.0) matches Some(y) && y < gs.len() && gs[y as int].0 == g.0 && (props_model(g.1) is Ok
        <==> props_model(gs[y as int].1) is Ok) && ((props_model(g.1) is Ok && props_model(
        gs[y as int].1,
    ) is Ok) ==> props_equiv(props_model(g.1)->Ok_0, props_model(gs[y as int].1)->Ok_0))
}

/// `gs` has a group of the name of `g` whose record is built exactly when
/// that of `g` is.
spec fn named_in(g: GroupModel, gs: Seq<GroupModel>) -> bool {
    group_index(gs, g.0) matches Some(x) && x < gs.len() && gs[x as int].0 == g.0 && (props_model(g.1) is Ok
        <==> props_model(gs[x as int].1) is Ok)
}

/// Groups that pair up by name build records for both or for neither, and
/// the records agree by name.
proof fn lemma_build_groups_paired(gs1: Seq<GroupModel>, gs2: Seq<GroupModel>)
    requires
        forall|i: int| 0 <= i < gs1.len() ==> #[trigger] pairs_with(gs1[i], gs2),
        forall|j: int| 0 <= j < gs2.len() ==> #[trigger] named_in(gs2[j], gs1),
    ensures
        build_groups(gs1) is Ok <==> build_groups(gs2) is Ok,
        (build_groups(gs1) is Ok && build_groups(gs2) is Ok) ==> recs_equiv(
            build_groups(gs1)->Ok_0,
            build_groups(gs2)->Ok_0,
        ),
{
    lemma_build_groups_ok(gs1);
    lemma_build_groups_ok(gs2);
    if build_groups(gs1) is Ok {
        assert forall|j: int| 0 <= j < gs2.len() implies #[trigger] props_model(gs2[j].1) is Ok by {
            assert(named_in(gs2[j], gs1));
            let x = group_index(gs1, gs2[j].0)->Some_0 as int;
            assert(props_model(gs1[x].1) is Ok);
        }
    }
    if build_groups(gs2) is Ok {
        assert forall|i: int| 0 <= i < gs1.len() implies #[trigger] props_model(gs1[i].1) is Ok by {
            assert(pairs_with(gs1[i], gs2));
            let y = group_index(gs2, gs1[i].0)->Some_0 as int;
            assert(props_model(gs2[y].1) is Ok);
        }
    }
    if let (Ok(r1), Ok(r2)) = (build_groups(gs1), build_groups(gs2)) {
        lemma_build_groups_pointwise(gs1);
        lemma_build_groups_pointwise(gs2);
        assert forall|i: int| #![trigger r1[i]] 0 <= i < r1.len() implies matched_in(r1[i], r2) by {
            assert(pairs_with(gs1[i], gs2));
            let y = group_index(gs2, gs1[i].0)->Some_0 as int;
            assert(r2[y].0 == r1[i].0 && props_equiv(r1[i].1, r2[y].1));
        }
        assert forall|j: int| #![trigger r2[j]] 0 <= j < r2.len() implies named_among(r2[j], r1) by {
            assert(named_in(gs2[j], gs1));
            let x = group_index(gs1, gs2[j].0)->Some_0 as int;
            assert(r1[x].0 == r2[j].0);
        }
    }
}

/// The groups gathered from entries that give every key the same last value
/// correspond by name, and corresponding groups give every property the same
/// value.
proof fn lemma_groups_match(es1: Seq<EntryModel>, es2: Seq<EntryModel>, nested: bool)
    requires
        same_lookups(es1, es2),
        group_entries(es1, nested) is Ok,
        group_entries(es2, nested) is Ok,
    ensures
        ({
            let gs1 = group_entries(es1, nested)->Ok_0;
            let gs2 = group_entries(es2, nested)->Ok_0;
            &&& forall|i: int|
                0 <= i < gs1.len() ==> (group_index(gs2, #[trigger] gs1[i].0) matches Some(y) && y
                    < gs2.len() && gs2[y as int].0 == gs1[i].0 && same_lookups(gs1[i].1, gs2[y as int].1))
            &&& forall|j: int|
                0 <= j < gs2.len() ==> (group_index(gs1, #[trigger] gs2[j].0) matches Some(x) && x
                    < gs1.len() && gs1[x as int].0 == gs2[j].0 && same_lookups(gs1[x as int].1, gs2[j].1))
        }),
{
    let gs1 = group_entries(es1, nested)->Ok_0;
    let gs2 = group_entries(es2, nested)->Ok_0;
    lemma_group_entries_distinct(es1, nested);
    lemma_group_entries_distinct(es2, nested);
    lemma_group_entries_nonempty(es1, nested);
    lemma_group_entries_nonempty(es2, nested);
    assert forall|k1: Seq<char>, k2: Seq<char>| #[trigger] grouped_value(gs1, k1, k2) == grouped_value(
        gs2,
        k1,
        k2,
    ) by {
        lemma_group_entries_values(es1, nested, k1, k2);
        lemma_group_entries_values(es2, nested, k1, k2);
        assert(lookup(es1, joined_key(k1, k2, nested)) == lookup(es2, joined_key(k1, k2, nested)));
    }
    assert forall|i: int| 0 <= i < gs1.len() implies (group_index(gs2, #[trigger] gs1[i].0) matches Some(y)
        && y < gs2.len() && gs2[y as int].0 == gs1[i].0 && same_lookups(gs1[i].1, gs2[y as int].1)) by {
        let k1 = gs1[i].0;
        let g = gs1[i].1;
        lemma_group_index_distinct(gs1, i);
        lemma_lookup_nonempty(g);
        assert(grouped_value(gs1, k1, g[0].0) == grouped_value(gs2, k1, g[0].0));
        lemma_group_index_in_range(gs2, k1);
        let y = group_index(gs2, k1)->Some_0 as int;
        assert forall|k2: Seq<char>| #![trigger lookup(g, k2)] #![trigger lookup(gs2[y].1, k2)] lookup(g, k2)
            == lookup(gs2[y].1, k2) by {
            assert(grouped_value(gs1, k1, k2) == grouped_value(gs2, k1, k2));
        }
    }
    assert forall|j: int| 0 <= j < gs2.len() implies (group_index(gs1, #[trigger] gs2[j].0) matches Some(x)
        && x < gs1.len() && gs1[x as int].0 == gs2[j].0 && same_lookups(gs1[x as int].1, gs2[j].1)) by {
        let k1 = gs2[j].0;
        let g = gs2[j].1;
        lemma_group_index_distinct(gs2, j);
        lemma_lookup_nonempty(g);
        assert(grouped_value(gs1, k1, g[0].0) == grouped_value(gs2, k1, g[0].0));
        lemma_group_index_in_range(gs1, k1);
        let x = group_index(gs1, k1)->Some_0 as int;
        assert forall|k2: Seq<char>| #![trigger lookup(gs1[x].1, k2)] #![trigger lookup(g, k2)] lookup(
            gs1[x].1,
            k2,
        ) == lookup(g, k2) by {
            assert(grouped_value(gs1, k1, k2) == grouped_value(gs2, k1, k2));
        }
    }
}

/// Entries that give every key the same last value build the same record.
proof fn lemma_props_same_lookups(g1: Seq<EntryModel>, g2: Seq<EntryModel>)
    requires
        same_lookups(g1, g2),
    ensures
        props_model(g1) is Ok <==> props_model(g2) is Ok,
        (props_model(g1) is Ok && props_model(g2) is Ok) ==> props_equiv(
            props_model(g1)->Ok_0,
            props_model(g2)->Ok_0,
        ),
    decreases key_bound(g1), 1nat,
{
    assert(lookup(g1, f1_key()) == lookup(g2, f1_key()));
    assert(lookup(g1, f2_key()) == lookup(g2, f2_key()));
    let r1 = unclaimed(g1);
    let r2 = unclaimed(g2);
    assert forall|k: Seq<char>| #![trigger lookup(r1, k)] #![trigger lookup(r2, k)] lookup(r1, k) == lookup(
        r2,
        k,
    ) by {
        lemma_unclaimed_lookup(g1, k);
        lemma_unclaimed_lookup(g2, k);
        assert(lookup(g1, k) == lookup(g2, k));
    }
    if r1.len() > 0 {
        lemma_lookup_nonempty(r1);
        assert(lookup(r2, r1[0].0) is Some);
    }
    if r2.len() > 0 {
        lemma_lookup_nonempty(r2);
        assert(lookup(r1, r2[0].0) is Some);
    }
    lemma_unclaimed_bound(g1);
    lemma_collect_same_lookups(r1, r2, true);
}

/// Reordering entries whose keys are distinct changes neither whether
/// gathering succeeds nor the records it gives: for each name the same
/// record, whatever the order in which the names come.
pub proof fn lemma_collect_order_free(es1: Seq<EntryModel>, es2: Seq<EntryModel>, nested: bool)
    requires
        keys_distinct(es1),
        keys_distinct(es2),
        same_entries(es1, es2),
    ensures
        collect_model(es1, nested) is Ok <==> collect_model(es2, nested) is Ok,
        (collect_model(es1, nested) is Ok && collect_model(es2, nested) is Ok) ==> recs_equiv(
            collect_model(es1, nested)->Ok_0,
            collect_model(es2, nested)->Ok_0,
        ),
{
    lemma_same_entries_lookups(es1, es2);
    lemma_collect_same_lookups(es1, es2, nested);
}





// ---------------------------------------------------------------------------
// What a record holds
// ---------------------------------------------------------------------------

/// `j` is the last entry with key `k`.
pub open spec fn last_with_key(es: Seq<EntryModel>, j: int, k: Seq<char>) -> bool {
    &&& 0 <= j < es.len()
    &&& es[j].0 == k
    &&& forall|m: int| j < m < es.len() ==> #[trigger] es[m].0 != k
}

/// Looking a key up finds its last entry.
proof fn lemma_lookup_last(es: Seq<EntryModel>, j: int, k: Seq<char>)
    requires
        last_with_key(es, j, k),
    ensures
        lookup(es, k) == Some(es[j].1),
    decreases es.len(),
{
    if j < es.len() - 1 {
        let p = es.drop_last();
        assert(es.last().0 != k) by {
            assert(es[es.len() - 1].0 != k);
        }
        assert forall|m: int| j < m < p.len() implies #[trigger] p[m].0 != k by {
            assert(p[m] == es[m]);
        }
        assert(p[j] == es[j]);
        lemma_lookup_last(p, j, k);
        lemma_key_index_in_range(p, k);
    }
}

/// Looking up a key that no entry has finds nothing.
proof fn lemma_lookup_absent(es: Seq<EntryModel>, k: Seq<char>)
    requires
        forall|m: int| 0 <= m < es.len() ==> #[trigger] es[m].0 != k,
    ensures
        lookup(es, k) is None,
{
    lemma_key_index_in_range(es, k);
    if let Some(i) = key_index(es, k) {
        assert(es[i as int].0 != k);
    }
}

/// The text property of a record is the value of the last entry with key
/// `f1`: a text gives itself (the empty text too), null gives nothing, and
/// any other value is the reason the record cannot be built.
pub proof fn lemma_record_text_property(es: Seq<EntryModel>, j: int)
    requires
        last_with_key(es, j, seq!['f', '1']),
    ensures
        es[j].1 matches ValueModel::Text(t) ==> (props_model(es) is Ok ==> props_model(es)->Ok_0.f1
            == Some(t)) && !(props_model(es) matches Err(CauseModel::TextExpected(_))),
        es[j].1 is Null ==> (props_model(es) is Ok ==> props_model(es)->Ok_0.f1 is None)
            && !(props_model(es) matches Err(CauseModel::TextExpected(_))),
        !(es[j].1 is Text || es[j].1 is Null) ==> props_model(es) == Err::<PropsModel, CauseModel>(
            CauseModel::TextExpected(es[j].1),
        ),
{
    lemma_lookup_last(es, j, f1_key());
}

/// A record without an entry with key `f1` has no text property, and it is
/// not rejected for one.
pub proof fn lemma_record_without_text_property(es: Seq<EntryModel>)
    requires
        forall|m: int| 0 <= m < es.len() ==> #[trigger] es[m].0 != seq!['f', '1'],
    ensures
        props_model(es) is Ok ==> props_model(es)->Ok_0.f1 is None,
        !(props_model(es) matches Err(CauseModel::TextExpected(_))),
{
    lemma_lookup_absent(es, f1_key());
}

/// The number property of a record is the value of the last entry with key
/// `f2`: a whole number from 0 to 255 gives itself, null gives nothing, and
/// any other value keeps the record from being built.
pub proof fn lemma_record_number_property(es: Seq<EntryModel>, j: int)
    requires
        last_with_key(es, j, seq!['f', '2']),
    ensures
        es[j].1 matches ValueModel::Unsigned(n) ==> (n <= 255 ==> (props_model(es) is Ok
            ==> props_model(es)->Ok_0.f2 == Some(n as u8)) && !(props_model(es) matches Err(
            CauseModel::ByteExpected(_),
        ))),
        es[j].1 matches ValueModel::Signed(n) ==> (0 <= n <= 255 ==> (props_model(es) is Ok
            ==> props_model(es)->Ok_0.f2 == Some(n as u8)) && !(props_model(es) matches Err(
            CauseModel::ByteExpected(_),
        ))),
        es[j].1 is Null ==> (props_model(es) is Ok ==> props_model(es)->Ok_0.f2 is None)
            && !(props_model(es) matches Err(CauseModel::ByteExpected(_))),
        !(es[j].1 is Null || (es[j].1 matches ValueModel::Unsigned(n) && n <= 255) || (
        es[j].1 matches ValueModel::Signed(n) && 0 <= n <= 255)) ==> props_model(es) is Err,
{
    lemma_lookup_last(es, j, f2_key());
}

/// A record without an entry with key `f2` has no number property, and it
/// is not rejected for one.
pub proof fn lemma_record_without_number_property(es: Seq<EntryModel>)
    requires
        forall|m: int| 0 <= m < es.len() ==> #[trigger] es[m].0 != seq!['f', '2'],
    ensures
        props_model(es) is Ok ==> props_model(es)->Ok_0.f2 is None,
        !(props_model(es) matches Err(CauseModel::ByteExpected(_))),
{
    lemma_lookup_absent(es, f2_key());
}

/// A record whose entries are all its own properties (`f1`, `f2`) has no
/// nested records, and it is built exactly when neither property is
/// rejected.
pub proof fn lemma_record_of_own_properties(es: Seq<EntryModel>)
    requires
        forall|m: int|
            0 <= m < es.len() ==> #[trigger] es[m].0 == seq!['f', '1'] || es[m].0 == seq!['f', '2'],
    ensures
        props_model(es) is Ok ==> props_model(es)->Ok_0.nested.len() == 0,
        !(props_model(es) matches Err(CauseModel::Nested(_))),
        !(props_model(es) matches Err(CauseModel::TextExpected(_)))
            && !(props_model(es) matches Err(CauseModel::ByteExpected(_))) ==> props_model(es) is Ok,
    decreases es.len(),
{
    lemma_unclaimed_empty(es);
}

proof fn lemma_unclaimed_empty(es: Seq<EntryModel>)
    requires
        forall|m: int|
            0 <= m < es.len() ==> #[trigger] es[m].0 == seq!['f', '1'] || es[m].0 == seq!['f', '2'],
    ensures
        unclaimed(es).len() == 0,
    decreases es.len(),
{
    if es.len() > 0 {
        let p = es.drop_last();
        assert forall|m: int| 0 <= m < p.len() implies #[trigger] p[m].0 == seq!['f', '1'] || p[m].0
            == seq!['f', '2'] by {
            assert(p[m] == es[m]);
        }
        lemma_unclaimed_empty(p);
        assert(es.last() == es[es.len() - 1]);
    }
}

/// When the last entry with key `fields.<name>.f1` (or `<name>.f1` in a
/// nested record) holds text `t`, the gathered record of that name has the
/// text property `t`, the empty text too.
pub proof fn lemma_collected_text_property(
    es: Seq<EntryModel>,
    nested: bool,
    i: int,
    t: Seq<char>,
)
    requires
        collect_model(es, nested) is Ok,
        0 <= i < collect_model(es, nested)->Ok_0.len(),
        dot_free(collect_model(es, nested)->Ok_0[i].0),
        lookup(es, joined_key(collect_model(es, nested)->Ok_0[i].0, seq!['f', '1'], nested))
            == Some(ValueModel::Text(t)),
    ensures
        collect_model(es, nested)->Ok_0[i].1.f1 == Some(t),
{
    let rs = collect_model(es, nested)->Ok_0;
    let gs = group_entries(es, nested)->Ok_0;
    let k1 = rs[i].0;
    lemma_group_entries_distinct(es, nested);
    lemma_build_groups_pointwise(gs);
    assert(rs[i].0 == gs[i].0);
    lemma_group_index_distinct(gs, i);
    lemma_group_entries_values(es, nested, k1, f1_key());
    assert(lookup(gs[i].1, f1_key()) == Some(ValueModel::Text(t)));
    assert(props_model(gs[i].1) == Ok::<PropsModel, CauseModel>(rs[i].1));
}

/// The entries of the top level that are neither `a` nor `b`, in order.
pub open spec fn dotted_entries(es: Seq<EntryModel>) -> Seq<EntryModel> {
    es.filter(|e: EntryModel| is_dotted(e))
}

/// An entry that is neither `a` nor `b`.
pub open spec fn is_dotted(e: EntryModel) -> bool {
    e.0 != seq!['a'] && e.0 != seq!['b']
}

/// `a` appears once, at `ia`, holding the whole number `n`; `b` appears
/// once, at `ib`, holding the text `t`.
pub open spec fn one_a_one_b(es: Seq<EntryModel>, ia: int, n: usize, ib: int, t: Seq<char>) -> bool {
    &&& 0 <= ia < es.len()
    &&& es[ia].0 == seq!['a']
    &&& ((es[ia].1 matches ValueModel::Unsigned(m) && m == n) || (es[ia].1 matches ValueModel::Signed(
        m,
    ) && m == n))
    &&& forall|m: int| 0 <= m < es.len() && m != ia ==> #[trigger] es[m].0 != seq!['a']
    &&& 0 <= ib < es.len()
    &&& es[ib] == (seq!['b'], ValueModel::Text(t))
    &&& forall|m: int| 0 <= m < es.len() && m != ib ==> #[trigger] es[m].0 != seq!['b']
}

proof fn lemma_scan_foo_found(es: Seq<EntryModel>, ia: int, n: usize, ib: int, t: Seq<char>, k: int)
    requires
        one_a_one_b(es, ia, n, ib, t),
        0 <= k <= es.len(),
    ensures
        scan_foo(es.take(k)) == Ok::<FooScan, FooErrorModel>(
            FooScan {
                a: if ia < k {
                    Some(n)
                } else {
                    None
                },
                b: if ib < k {
                    Some(t)
                } else {
                    None
                },
                rest: dotted_entries(es.take(k)),
            },
        ),
    decreases k,
{
    if k == 0 {
        assert(es.take(0).len() == 0);
        reveal(Seq::filter);
        assert(dotted_entries(es.take(0)) == es.take(0));
        assert(es.take(0) == Seq::<EntryModel>::empty());
    } else {
        lemma_scan_foo_found(es, ia, n, ib, t, k - 1);
        let p = es.take(k);
        let q = es.take(k - 1);
        let e = es[k - 1];
        assert(p.drop_last() == q);
        assert(p.last() == e);
        let st = scan_foo(q)->Ok_0;
        reveal(Seq::filter);
        assert(dotted_entries(p) == if is_dotted(e) {
            dotted_entries(q).push(e)
        } else {
            dotted_entries(q)
        });
        assert(scan_foo(p.drop_last()) == scan_foo(q));
        if k - 1 == ia {
            assert(e.0 == a_key());
            assert(st.a is None);
            assert(usize_value(e.1) == Some(n));
            assert(!is_dotted(e));
            assert(scan_foo(p) == Ok::<FooScan, FooErrorModel>(FooScan { a: Some(n), ..st }));
        } else if k - 1 == ib {
            assert(e.0 != a_key());
            assert(e.0 == b_key());
            assert(st.b is None);
            assert(!is_dotted(e));
            assert(scan_foo(p) == Ok::<FooScan, FooErrorModel>(FooScan { b: Some(t), ..st }));
        } else {
            assert(e.0 != seq!['a']);
            assert(e.0 != seq!['b']);
            assert(is_dotted(e));
            assert(scan_foo(p) == Ok::<FooScan, FooErrorModel>(FooScan { rest: st.rest.push(e), ..st }));
        }
    }
}

/// When `a` appears once with a whole number `n` in range (0 too) and `b`
/// once with a text `t`, and the other entries gather into records, the
/// top-level record is built, with `a` = `n`, `b` = `t` and those records.
pub proof fn lemma_foo_built(es: Seq<EntryModel>, ia: int, n: usize, ib: int, t: Seq<char>)
    requires
        one_a_one_b(es, ia, n, ib, t),
        collect_model(dotted_entries(es), false) is Ok,
    ensures
        foo_model(es) == Ok::<(usize, Seq<char>, Seq<(Seq<char>, PropsModel)>), FooErrorModel>(
            (n, t, collect_model(dotted_entries(es), false)->Ok_0),
        ),
{
    lemma_scan_foo_found(es, ia, n, ib, t, es.len() as int);
    assert(es.take(es.len() as int) == es);
}

/// What a successful scan found: `a` only when some entry has key `a`, `b`
/// only when some entry has key `b`; and a second `a` or `b`, or an `a`
/// that is not a whole number in range, or a `b` that is not text, makes the
/// scan fail.
proof fn lemma_scan_foo_facts(es: Seq<EntryModel>)
    ensures
        scan_foo(es) matches Ok(st) ==> ((st.a is Some ==> exists|m: int|
            0 <= m < es.len() && #[trigger] es[m].0 == seq!['a']) && (st.b is Some ==> exists|m: int|
            0 <= m < es.len() && #[trigger] es[m].0 == seq!['b'])),
        (exists|i: int, j: int|
            0 <= i < j < es.len() && #[trigger] es[i].0 == seq!['a'] && #[trigger] es[j].0 == seq!['a'])
            ==> scan_foo(es) is Err,
        (exists|i: int, j: int|
            0 <= i < j < es.len() && #[trigger] es[i].0 == seq!['b'] && #[trigger] es[j].0 == seq!['b'])
            ==> scan_foo(es) is Err,
        (exists|i: int| 0 <= i < es.len() && #[trigger] es[i].0 == seq!['a'] && usize_value(es[i].1) is None)
            ==> scan_foo(es) is Err,
        (exists|i: int| 0 <= i < es.len() && #[trigger] es[i].0 == seq!['b'] && !(es[i].1 is Text))
            ==> scan_foo(es) is Err,
    decreases es.len(),
{
    assert(seq!['b'] != seq!['a']) by {
        assert(seq!['b'][0] != seq!['a'][0]);
    }
    if es.len() > 0 {
        let p = es.drop_last();
        let e = es.last();
        lemma_scan_foo_facts(p);
        assert(e == es[es.len() - 1]);
        if let Ok(st) = scan_foo(es) {
            let ps = scan_foo(p)->Ok_0;
            if st.a is Some && ps.a is Some {
                let m = choose|m: int| 0 <= m < p.len() && #[trigger] p[m].0 == seq!['a'];
                assert(es[m] == p[m]);
            }
            if st.b is Some && ps.b is Some {
                let m = choose|m: int| 0 <= m < p.len() && #[trigger] p[m].0 == seq!['b'];
                assert(es[m] == p[m]);
            }
        }
        if exists|i: int, j: int|
            0 <= i < j < es.len() && #[trigger] es[i].0 == seq!['a'] && #[trigger] es[j].0 == seq!['a'] {
            let (i, j) = choose|i: int, j: int|
                0 <= i < j < es.len() && #[trigger] es[i].0 == seq!['a'] && #[trigger] es[j].0 == seq!['a'];
            assert(p[i] == es[i]);
            if j < es.len() - 1 {
                assert(p[j] == es[j]);
            } else if let Ok(ps) = scan_foo(p) {
                assert(ps.a is Some) by {
                    if ps.a is None {
                        lemma_scan_foo_a_absent(p, i);
                    }
                }
            }
        }
        if exists|i: int, j: int|
            0 <= i < j < es.len() && #[trigger] es[i].0 == seq!['b'] && #[trigger] es[j].0 == seq!['b'] {
            let (i, j) = choose|i: int, j: int|
                0 <= i < j < es.len() && #[trigger] es[i].0 == seq!['b'] && #[trigger] es[j].0 == seq!['b'];
            assert(p[i] == es[i]);
            if j < es.len() - 1 {
                assert(p[j] == es[j]);
            } else if let Ok(ps) = scan_foo(p) {
                assert(ps.b is Some) by {
                    if ps.b is None {
                        lemma_scan_foo_b_absent(p, i);
                    }
                }
            }
        }
        if exists|i: int| 0 <= i < es.len() && #[trigger] es[i].0 == seq!['a'] && usize_value(es[i].1) is None {
            let i = choose|i: int| 0 <= i < es.len() && #[trigger] es[i].0 == seq!['a'] && usize_value(es[i].1) is None;
            if i < es.len() - 1 {
                assert(p[i] == es[i]);
            }
        }
        if exists|i: int| 0 <= i < es.len() && #[trigger] es[i].0 == seq!['b'] && !(es[i].1 is Text) {
            let i = choose|i: int| 0 <= i < es.len() && #[trigger] es[i].0 == seq!['b'] && !(es[i].1 is Text);
            if i < es.len() - 1 {
                assert(p[i] == es[i]);
            }
        }
    }
}

/// A successful scan that found no `a` saw no entry with key `a`.
proof fn lemma_scan_foo_a_absent(es: Seq<EntryModel>, i: int)
    requires
        0 <= i < es.len(),
        es[i].0 == seq!['a'],
        scan_foo(es) is Ok,
    ensures
        scan_foo(es)->Ok_0.a is Some,
    decreases es.len(),
{
    let p = es.drop_last();
    assert(es.last() == es[es.len() - 1]);
    if i < es.len() - 1 {
        assert(p[i] == es[i]);
        lemma_scan_foo_a_absent(p, i);
    }
}

/// A successful scan that found no `b` saw no entry with key `b`.
proof fn lemma_scan_foo_b_absent(es: Seq<EntryModel>, i: int)
    requires
        0 <= i < es.len(),
        es[i].0 == seq!['b'],
        scan_foo(es) is Ok,
    ensures
        scan_foo(es)->Ok_0.b is Some,
    decreases es.len(),
{
    assert(seq!['b'] != seq!['a']) by {
        assert(seq!['b'][0] != seq!['a'][0]);
    }
    let p = es.drop_last();
    assert(es.last() == es[es.len() - 1]);
    if i < es.len() - 1 {
        assert(p[i] == es[i]);
        lemma_scan_foo_b_absent(p, i);
    }
}

/// The top-level record is not built without an entry `a`, nor without an
/// entry `b`, nor with two entries `a` or two entries `b`, nor when `a` is
/// not a whole number in range or `b` is not text.
pub proof fn lemma_foo_rejected(es: Seq<EntryModel>)
    ensures
        (forall|m: int| 0 <= m < es.len() ==> #[trigger] es[m].0 != seq!['a']) ==> foo_model(es) is Err,
        (forall|m: int| 0 <= m < es.len() ==> #[trigger] es[m].0 != seq!['b']) ==> foo_model(es) is Err,
        (exists|i: int, j: int|
            0 <= i < j < es.len() && #[trigger] es[i].0 == seq!['a'] && #[trigger] es[j].0 == seq!['a'])
            ==> foo_model(es) is Err,
        (exists|i: int, j: int|
            0 <= i < j < es.len() && #[trigger] es[i].0 == seq!['b'] && #[trigger] es[j].0 == seq!['b'])
            ==> foo_model(es) is Err,
        (exists|i: int|
            0 <= i < es.len() && #[trigger] es[i].0 == seq!['a'] && !(es[i].1 is Unsigned || es[i].1 is Signed))
            ==> foo_model(es) is Err,
        (exists|i: int| 0 <= i < es.len() && #[trigger] es[i].0 == seq!['b'] && !(es[i].1 is Text))
            ==> foo_model(es) is Err,
{
    lemma_scan_foo_facts(es);
    if exists|i: int|
        0 <= i < es.len() && #[trigger] es[i].0 == seq!['a'] && !(es[i].1 is Unsigned || es[i].1 is Signed) {
        let i = choose|i: int|
            0 <= i < es.len() && #[trigger] es[i].0 == seq!['a'] && !(es[i].1 is Unsigned || es[i].1 is Signed);
        assert(usize_value(es[i].1) is None);
    }
}

} // verus!
