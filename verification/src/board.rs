//! The board document as the logic of the crate reads and writes it: the
//! root entries, the field definitions and the cards with their custom field
//! values and comments. Each map is a list of `(key, entry)` pairs in the
//! order in which the document lists its keys; keys are unique.
use vstd::prelude::*;
use crate::text;

verus! {

/// A scalar stored in the document, as far as the logic tells kinds apart.
#[derive(Debug)]
pub enum Value {
    Str(String),
    Boolean(bool),
    Uint(u64),
    Int(i64),
    /// Any other kind of value (another scalar type, or an object).
    Other,
}

pub enum ValueView {
    Str(Seq<char>),
    Boolean(bool),
    Uint(u64),
    Int(i64),
    Other,
}

impl View for Value {
    type V = ValueView;

    open spec fn view(&self) -> ValueView {
        match self {
            Value::Str(s) => ValueView::Str(s@),
            Value::Boolean(b) => ValueView::Boolean(*b),
            Value::Uint(n) => ValueView::Uint(*n),
            Value::Int(n) => ValueView::Int(*n),
            Value::Other => ValueView::Other,
        }
    }
}

pub open spec fn opt_value_view(v: Option<Value>) -> Option<ValueView> {
    match v {
        Some(x) => Some(x@),
        None => None,
    }
}

/// The text of an entry when it is a string (what reading a string property gives).
pub open spec fn as_text(v: Option<ValueView>) -> Option<Seq<char>> {
    match v {
        Some(ValueView::Str(s)) => Some(s),
        _ => None,
    }
}

/// Whether an entry is the boolean `true`.
pub open spec fn is_true(v: Option<ValueView>) -> bool {
    v == Some(ValueView::Boolean(true))
}

/// Clones a value.
pub fn clone_value(v: &Value) -> (r: Value)
    ensures
        r@ == v@,
{
    match v {
        Value::Str(s) => Value::Str(s.clone()),
        Value::Boolean(b) => Value::Boolean(*b),
        Value::Uint(n) => Value::Uint(*n),
        Value::Int(n) => Value::Int(*n),
        Value::Other => Value::Other,
    }
}

/// The text of an entry when it is a string.
pub fn text_of(v: &Option<Value>) -> (r: Option<String>)
    ensures
        match r {
            Some(s) => as_text(opt_value_view(*v)) == Some(s@),
            None => as_text(opt_value_view(*v)) is None,
        },
{
    match v {
        Some(Value::Str(s)) => Some(s.clone()),
        _ => None,
    }
}

/// Whether an entry is the boolean `true`.
pub fn is_true_exec(v: &Option<Value>) -> (r: bool)
    ensures
        r == is_true(opt_value_view(*v)),
{
    match v {
        Some(Value::Boolean(b)) => *b,
        _ => false,
    }
}

/// A field definition object.
#[derive(Debug)]
pub struct FieldDefObject {
    pub id: Option<Value>,
    pub name: Option<Value>,
    pub kind: Option<Value>,
    pub order: Option<Value>,
    pub archived: Option<Value>,
    pub auto_apply: Option<Value>,
    pub default_value: Option<Value>,
    /// The `options` list, when present.
    pub options: Option<Vec<Value>>,
}

pub struct FieldDefObjectView {
    pub id: Option<ValueView>,
    pub name: Option<ValueView>,
    pub kind: Option<ValueView>,
    pub order: Option<ValueView>,
    pub archived: Option<ValueView>,
    pub auto_apply: Option<ValueView>,
    pub default_value: Option<ValueView>,
    pub options: Option<Seq<ValueView>>,
}

pub open spec fn values_view(v: Seq<Value>) -> Seq<ValueView> {
    v.map_values(|x: Value| x@)
}

impl View for FieldDefObject {
    type V = FieldDefObjectView;

    open spec fn view(&self) -> FieldDefObjectView {
        FieldDefObjectView {
            id: opt_value_view(self.id),
            name: opt_value_view(self.name),
            kind: opt_value_view(self.kind),
            order: opt_value_view(self.order),
            archived: opt_value_view(self.archived),
            auto_apply: opt_value_view(self.auto_apply),
            default_value: opt_value_view(self.default_value),
            options: match self.options {
                Some(l) => Some(values_view(l@)),
                None => None,
            },
        }
    }
}

/// A comment object of a card.
#[derive(Debug)]
pub struct CommentObject {
    pub id: Option<Value>,
    pub author: Option<Value>,
    pub text: Option<Value>,
    pub created_at: Option<Value>,
    pub deleted: Option<Value>,
    pub edited_at: Option<Value>,
    pub avatar_url: Option<Value>,
    pub image_b64: Option<Value>,
    pub image_mime: Option<Value>,
    pub image_name: Option<Value>,
    pub mail_message_id: Option<Value>,
}

pub struct CommentObjectView {
    pub id: Option<ValueView>,
    pub author: Option<ValueView>,
    pub text: Option<ValueView>,
    pub created_at: Option<ValueView>,
    pub deleted: Option<ValueView>,
    pub edited_at: Option<ValueView>,
    pub avatar_url: Option<ValueView>,
    pub image_b64: Option<ValueView>,
    pub image_mime: Option<ValueView>,
    pub image_name: Option<ValueView>,
    pub mail_message_id: Option<ValueView>,
}

impl View for CommentObject {
    type V = CommentObjectView;

    open spec fn view(&self) -> CommentObjectView {
        CommentObjectView {
            id: opt_value_view(self.id),
            author: opt_value_view(self.author),
            text: opt_value_view(self.text),
            created_at: opt_value_view(self.created_at),
            deleted: opt_value_view(self.deleted),
            edited_at: opt_value_view(self.edited_at),
            avatar_url: opt_value_view(self.avatar_url),
            image_b64: opt_value_view(self.image_b64),
            image_mime: opt_value_view(self.image_mime),
            image_name: opt_value_view(self.image_name),
            mail_message_id: opt_value_view(self.mail_message_id),
        }
    }
}

/// A card object.
#[derive(Debug)]
pub struct CardObject {
    pub deleted: Option<Value>,
    pub number: Option<Value>,
    /// The card's `title`, when present.
    pub title: Option<Value>,
    /// The `column_id` of the column the card sits in, when present.
    pub column_id: Option<Value>,
    /// The `custom_fields` map (field id to value), when present.
    pub custom_fields: Option<Vec<(String, Value)>>,
    /// The `comments` list, when present.
    pub comments: Option<Vec<CommentObject>>,
}

pub struct CardObjectView {
    pub deleted: Option<ValueView>,
    pub number: Option<ValueView>,
    pub title: Option<ValueView>,
    pub column_id: Option<ValueView>,
    pub custom_fields: Option<Seq<(Seq<char>, ValueView)>>,
    pub comments: Option<Seq<CommentObjectView>>,
}

pub open spec fn entries_view(m: Seq<(String, Value)>) -> Seq<(Seq<char>, ValueView)> {
    m.map_values(|e: (String, Value)| (e.0@, e.1@))
}

pub open spec fn comments_view(l: Seq<CommentObject>) -> Seq<CommentObjectView> {
    l.map_values(|c: CommentObject| c@)
}

impl View for CardObject {
    type V = CardObjectView;

    open spec fn view(&self) -> CardObjectView {
        CardObjectView {
            deleted: opt_value_view(self.deleted),
            number: opt_value_view(self.number),
            title: opt_value_view(self.title),
            column_id: opt_value_view(self.column_id),
            custom_fields: match self.custom_fields {
                Some(m) => Some(entries_view(m@)),
                None => None,
            },
            comments: match self.comments {
                Some(l) => Some(comments_view(l@)),
                None => None,
            },
        }
    }
}

/// A board document.
#[derive(Debug)]
pub struct BoardDoc {
    /// Scalar entries at the root (board configuration such as the mail settings).
    pub root: Vec<(String, Value)>,
    /// The `field_definitions` map (field id to definition), when present.
    pub field_definitions: Option<Vec<(String, FieldDefObject)>>,
    /// The `cards` map (card id to card).
    pub cards: Vec<(String, CardObject)>,
}

pub struct BoardDocView {
    pub root: Seq<(Seq<char>, ValueView)>,
    pub field_definitions: Option<Seq<(Seq<char>, FieldDefObjectView)>>,
    pub cards: Seq<(Seq<char>, CardObjectView)>,
}

pub open spec fn defs_view(m: Seq<(String, FieldDefObject)>) -> Seq<(Seq<char>, FieldDefObjectView)> {
    m.map_values(|e: (String, FieldDefObject)| (e.0@, e.1@))
}

pub open spec fn cards_view(m: Seq<(String, CardObject)>) -> Seq<(Seq<char>, CardObjectView)> {
    m.map_values(|e: (String, CardObject)| (e.0@, e.1@))
}

impl View for BoardDoc {
    type V = BoardDocView;

    open spec fn view(&self) -> BoardDocView {
        BoardDocView {
            root: entries_view(self.root@),
            field_definitions: match self.field_definitions {
                Some(m) => Some(defs_view(m@)),
                None => None,
            },
            cards: cards_view(self.cards@),
        }
    }
}

// ---------------------------------------------------------------------------
// Maps as lists of entries
// ---------------------------------------------------------------------------

/// No key occurs twice.
pub open spec fn keys_unique<T>(m: Seq<(Seq<char>, T)>) -> bool {
    forall|i: int, j: int| 0 <= i < m.len() && 0 <= j < m.len() && i != j ==> m[i].0 != m[j].0
}

/// The position of `key` in the map, if it is there.
pub open spec fn key_index<T>(m: Seq<(Seq<char>, T)>, key: Seq<char>) -> Option<int> {
    if exists|i: int| 0 <= i < m.len() && m[i].0 == key {
        Some(choose|i: int| 0 <= i < m.len() && m[i].0 == key)
    } else {
        None
    }
}

/// The entry under `key`, if any.
pub open spec fn lookup<T>(m: Seq<(Seq<char>, T)>, key: Seq<char>) -> Option<T> {
    match key_index(m, key) {
        Some(i) => Some(m[i].1),
        None => None,
    }
}

/// `m` with `key` set to `v`: replaced in place when present, else appended.
pub open spec fn put<T>(m: Seq<(Seq<char>, T)>, key: Seq<char>, v: T) -> Seq<(Seq<char>, T)> {
    match key_index(m, key) {
        Some(i) => m.update(i, (key, v)),
        None => m.push((key, v)),
    }
}

/// `m` without `key`.
pub open spec fn remove<T>(m: Seq<(Seq<char>, T)>, key: Seq<char>) -> Seq<(Seq<char>, T)>
    decreases m.len(),
{
    if m.len() == 0 {
        m
    } else {
        let r = remove(m.drop_last(), key);
        if m.last().0 == key {
            r
        } else {
            r.push(m.last())
        }
    }
}

pub proof fn lemma_key_index<T>(m: Seq<(Seq<char>, T)>, key: Seq<char>, i: int)
    requires
        keys_unique(m),
        0 <= i < m.len(),
        m[i].0 == key,
    ensures
        key_index(m, key) == Some(i),
{
    let k = choose|k: int| 0 <= k < m.len() && m[k].0 == key;
    assert(0 <= k < m.len() && m[k].0 == key);
}

pub proof fn lemma_key_index_none<T>(m: Seq<(Seq<char>, T)>, key: Seq<char>)
    requires
        forall|i: int| 0 <= i < m.len() ==> m[i].0 != key,
    ensures
        key_index(m, key) is None,
{
}

pub proof fn lemma_key_index_bounds<T>(m: Seq<(Seq<char>, T)>, key: Seq<char>)
    ensures
        key_index(m, key) matches Some(i) ==> 0 <= i < m.len() && m[i].0 == key,
{
    if exists|i: int| 0 <= i < m.len() && m[i].0 == key {
        let k = choose|i: int| 0 <= i < m.len() && m[i].0 == key;
        assert(0 <= k < m.len() && m[k].0 == key);
    }
}

pub proof fn lemma_put_keys_unique<T>(m: Seq<(Seq<char>, T)>, key: Seq<char>, v: T)
    requires
        keys_unique(m),
    ensures
        keys_unique(put(m, key, v)),
        lookup(put(m, key, v), key) == Some(v),
        forall|k: Seq<char>| k != key ==> lookup(put(m, key, v), k) == lookup(m, k),
{
    lemma_key_index_bounds(m, key);
    let p = put(m, key, v);
    assert(keys_unique(p));
    match key_index(m, key) {
        Some(i) => {
            lemma_key_index(p, key, i);
        },
        None => {
            lemma_key_index(p, key, m.len() as int);
        },
    }
    assert forall|k: Seq<char>| k != key implies lookup(p, k) == lookup(m, k) by {
        lemma_key_index_bounds(m, k);
        match key_index(m, k) {
            Some(j) => {
                lemma_key_index(p, k, j);
            },
            None => {
                assert forall|j: int| 0 <= j < p.len() implies p[j].0 != k by {
                    if j < m.len() {
                        if m[j].0 == k {
                            lemma_key_index(m, k, j);
                        }
                    }
                }
                lemma_key_index_none(p, k);
            },
        }
    }
}

/// The position of `key` among the keys of `m`.
pub fn find_key<T>(m: &Vec<(String, T)>, key: &str) -> (r: Option<usize>)
    ensures
        match r {
            Some(i) => i < m@.len() && m@[i as int].0@ == key@ && forall|j: int|
                0 <= j < i ==> m@[j].0@ != key@,
            None => forall|j: int| 0 <= j < m@.len() ==> m@[j].0@ != key@,
        },
{
    let k = text::chars_of(key);
    let mut i: usize = 0;
    while i < m.len()
        invariant
            i <= m@.len(),
            k@ == key@,
            forall|j: int| 0 <= j < i ==> m@[j].0@ != key@,
        decreases m@.len() - i,
    {
        if text::str_eq_chars(m[i].0.as_str(), k.as_slice()) {
            return Some(i);
        }
        i = i + 1;
    }
    None
}

// ---------------------------------------------------------------------------
// Errors and well-formedness
// ---------------------------------------------------------------------------

/// Errors of the operations on a board document.
#[derive(Debug)]
pub enum DocError {
    /// A card, field or comment that the operation names is not there.
    NotFound(String),
    /// The document lacks a part that the operation needs.
    InvalidDocument(String),
}

pub enum DocErrorView {
    NotFound(Seq<char>),
    InvalidDocument(Seq<char>),
}

impl View for DocError {
    type V = DocErrorView;

    open spec fn view(&self) -> DocErrorView {
        match self {
            DocError::NotFound(s) => DocErrorView::NotFound(s@),
            DocError::InvalidDocument(s) => DocErrorView::InvalidDocument(s@),
        }
    }
}

/// The field definitions map, or no entries when the map is absent.
pub open spec fn defs_or_empty(d: BoardDocView) -> Seq<(Seq<char>, FieldDefObjectView)> {
    match d.field_definitions {
        Some(m) => m,
        None => Seq::empty(),
    }
}

/// The custom field map of a card, or no entries when it is absent.
pub open spec fn custom_fields_or_empty(c: CardObjectView) -> Seq<(Seq<char>, ValueView)> {
    match c.custom_fields {
        Some(m) => m,
        None => Seq::empty(),
    }
}

/// Keys are unique in every map of the document.
pub open spec fn doc_wf(d: BoardDocView) -> bool {
    &&& keys_unique(d.root)
    &&& keys_unique(defs_or_empty(d))
    &&& keys_unique(d.cards)
    &&& forall|i: int| 0 <= i < d.cards.len() ==> keys_unique(custom_fields_or_empty(#[trigger] d.cards[i].1))
}

/// Sets `key` of the map to `v`: in place when present, else appended.
pub fn put_def(m: &mut Vec<(String, FieldDefObject)>, key: String, v: FieldDefObject)
    requires
        keys_unique(defs_view(old(m)@)),
    ensures
        defs_view(final(m)@) == put(defs_view(old(m)@), key@, v@),
        keys_unique(defs_view(final(m)@)),
{
    let ghost old_view = defs_view(m@);
    let ghost k = key@;
    let ghost vv = v@;
    proof {
        lemma_put_keys_unique(old_view, k, vv);
    }
    match find_key(m, key.as_str()) {
        Some(i) => {
            proof {
                assert(old_view[i as int].0 == k);
                lemma_key_index(old_view, k, i as int);
            }
            m.remove(i);
            m.insert(i, (key, v));
            assert(defs_view(m@) =~= old_view.update(i as int, (k, vv)));
        },
        None => {
            proof {
                assert forall|j: int| 0 <= j < old_view.len() implies old_view[j].0 != k by {
                    assert(old_view[j].0 == m@[j].0@);
                }
                lemma_key_index_none(old_view, k);
            }
            m.push((key, v));
            assert(defs_view(m@) =~= old_view.push((k, vv)));
        },
    }
}

/// Sets `key` of the map to `v`: in place when present, else appended.
pub fn put_value(m: &mut Vec<(String, Value)>, key: String, v: Value)
    requires
        keys_unique(entries_view(old(m)@)),
    ensures
        entries_view(final(m)@) == put(entries_view(old(m)@), key@, v@),
        keys_unique(entries_view(final(m)@)),
{
    let ghost old_view = entries_view(m@);
    let ghost k = key@;
    let ghost vv = v@;
    proof {
        lemma_put_keys_unique(old_view, k, vv);
    }
    match find_key(m, key.as_str()) {
        Some(i) => {
            proof {
                assert(old_view[i as int].0 == k);
                lemma_key_index(old_view, k, i as int);
            }
            m.remove(i);
            m.insert(i, (key, v));
            assert(entries_view(m@) =~= old_view.update(i as int, (k, vv)));
        },
        None => {
            proof {
                assert forall|j: int| 0 <= j < old_view.len() implies old_view[j].0 != k by {
                    assert(old_view[j].0 == m@[j].0@);
                }
                lemma_key_index_none(old_view, k);
            }
            m.push((key, v));
            assert(entries_view(m@) =~= old_view.push((k, vv)));
        },
    }
}

/// Sets `key` of the map to `v`: in place when present, else appended.
pub fn put_card(m: &mut Vec<(String, CardObject)>, key: String, v: CardObject)
    requires
        keys_unique(cards_view(old(m)@)),
    ensures
        cards_view(final(m)@) == put(cards_view(old(m)@), key@, v@),
        keys_unique(cards_view(final(m)@)),
{
    let ghost old_view = cards_view(m@);
    let ghost k = key@;
    let ghost vv = v@;
    proof {
        lemma_put_keys_unique(old_view, k, vv);
    }
    match find_key(m, key.as_str()) {
        Some(i) => {
            proof {
                assert(old_view[i as int].0 == k);
                lemma_key_index(old_view, k, i as int);
            }
            m.remove(i);
            m.insert(i, (key, v));
            assert(cards_view(m@) =~= old_view.update(i as int, (k, vv)));
        },
        None => {
            proof {
                assert forall|j: int| 0 <= j < old_view.len() implies old_view[j].0 != k by {
                    assert(old_view[j].0 == m@[j].0@);
                }
                lemma_key_index_none(old_view, k);
            }
            m.push((key, v));
            assert(cards_view(m@) =~= old_view.push((k, vv)));
        },
    }
}

/// Removes `key` from a map of values.
pub fn remove_value(m: &mut Vec<(String, Value)>, key: &str)
    requires
        keys_unique(entries_view(old(m)@)),
    ensures
        entries_view(final(m)@) == remove(entries_view(old(m)@), key@),
        keys_unique(entries_view(final(m)@)),
{
    let ghost old_view = entries_view(m@);
    match find_key(m, key) {
        Some(i) => {
            m.remove(i);
            proof {
                assert(old_view[i as int].0 == key@);
                assert forall|j: int| 0 <= j < old_view.len() && j != i implies old_view[j].0 != key@ by {
                }
                lemma_filter_all_but(old_view, key@, i as int);
                assert(entries_view(m@) =~= old_view.remove(i as int));
            }
        },
        None => {
            proof {
                assert forall|j: int| 0 <= j < old_view.len() implies old_view[j].0 != key@ by {
                    assert(old_view[j].0 == m@[j].0@);
                }
                lemma_filter_none(old_view, key@);
            }
        },
    }
}

proof fn lemma_filter_none<T>(m: Seq<(Seq<char>, T)>, key: Seq<char>)
    requires
        forall|j: int| 0 <= j < m.len() ==> m[j].0 != key,
    ensures
        remove(m, key) == m,
    decreases m.len(),
{
    if m.len() > 0 {
        lemma_filter_none(m.drop_last(), key);
        assert(m.drop_last().push(m.last()) =~= m);
    }
}

proof fn lemma_filter_all_but<T>(m: Seq<(Seq<char>, T)>, key: Seq<char>, i: int)
    requires
        0 <= i < m.len(),
        m[i].0 == key,
        forall|j: int| 0 <= j < m.len() && j != i ==> m[j].0 != key,
    ensures
        remove(m, key) == m.remove(i),
    decreases m.len(),
{
    assert(m.drop_last().push(m.last()) =~= m);
    if i == m.len() - 1 {
        lemma_filter_none(m.drop_last(), key);
        assert(m.remove(i) =~= m.drop_last());
    } else {
        lemma_filter_all_but(m.drop_last(), key, i);
        assert(m.remove(i) =~= m.drop_last().remove(i).push(m.last()));
    }
}

/// A fresh random identifier (uuid `Uuid::new_v4()`, hyphenated text).
/// Nothing is claimed of its value.
#[verifier::external_body]
pub(crate) fn new_uuid() -> String {
    uuid::Uuid::new_v4().to_string()
}

/// The position of the card `card_id`, with the proof that the map lookup finds it there.
pub fn find_card(doc: &BoardDoc, card_id: &str) -> (r: Option<usize>)
    requires
        doc_wf(doc@),
    ensures
        match r {
            Some(i) => i < doc.cards@.len() && doc.cards@[i as int].0@ == card_id@ && key_index(
                doc@.cards,
                card_id@,
            ) == Some(i as int),
            None => key_index(doc@.cards, card_id@) is None,
        },
{
    let r = find_key(&doc.cards, card_id);
    proof {
        match r {
            Some(i) => {
                assert(doc@.cards[i as int].0 == card_id@);
                lemma_key_index(doc@.cards, card_id@, i as int);
            },
            None => {
                assert forall|j: int| 0 <= j < doc@.cards.len() implies doc@.cards[j].0 != card_id@ by {
                    assert(doc@.cards[j].0 == doc.cards@[j].0@);
                }
                lemma_key_index_none(doc@.cards, card_id@);
            },
        }
    }
    r
}


/// No two entries of `m` share a key.
pub open spec fn exec_keys_distinct<T>(m: Seq<(String, T)>) -> bool {
    forall|i: int, j: int| 0 <= i < m.len() && 0 <= j < m.len() && i != j ==> m[i].0@ != m[j].0@
}

/// Whether no two entries of `m` share a key.
pub fn keys_distinct<T>(m: &Vec<(String, T)>) -> (r: bool)
    ensures
        r == exec_keys_distinct(m@),
{
    let mut i: usize = 0;
    while i < m.len()
        invariant
            i <= m@.len(),
            forall|a: int, b: int| 0 <= a < i && 0 <= b < m@.len() && a != b ==> m@[a].0@ != m@[b].0@,
        decreases m@.len() - i,
    {
        let mut j: usize = 0;
        while j < m.len()
            invariant
                i < m@.len(),
                j <= m@.len(),
                forall|b: int| 0 <= b < j && b != i ==> m@[i as int].0@ != m@[b].0@,
            decreases m@.len() - j,
        {
            if j != i && text::str_eq(m[i].0.as_str(), m[j].0.as_str()) {
                return false;
            }
            j = j + 1;
        }
        i = i + 1;
    }
    true
}

proof fn lemma_keys_view<T, V>(m: Seq<(String, T)>, mv: Seq<(Seq<char>, V)>)
    requires
        mv.len() == m.len(),
        forall|i: int| 0 <= i < m.len() ==> #[trigger] mv[i].0 == m[i].0@,
    ensures
        keys_unique(mv) == exec_keys_distinct(m),
{
    if !keys_unique(mv) {
        let (i, j) = choose|i: int, j: int| 0 <= i < mv.len() && 0 <= j < mv.len() && i != j && mv[i].0 == mv[j].0;
        assert(mv[i].0 == m[i].0@ && mv[j].0 == m[j].0@);
    }
    if !exec_keys_distinct(m) {
        let (i, j) = choose|i: int, j: int| 0 <= i < m.len() && 0 <= j < m.len() && i != j && m[i].0@ == m[j].0@;
        assert(mv[i].0 == m[i].0@ && mv[j].0 == m[j].0@);
    }
}

/// Whether keys are unique in every map of the document (`doc_wf`).
pub fn doc_well_formed(doc: &BoardDoc) -> (r: bool)
    ensures
        r == doc_wf(doc@),
{
    let ghost d = doc@;
    proof {
        lemma_keys_view(doc.root@, d.root);
        lemma_keys_view(doc.cards@, d.cards);
    }
    if !keys_distinct(&doc.root) || !keys_distinct(&doc.cards) {
        return false;
    }
    match &doc.field_definitions {
        Some(defs) => {
            proof {
                lemma_keys_view(defs@, defs_or_empty(d));
            }
            if !keys_distinct(defs) {
                return false;
            }
        },
        None => {
            assert(defs_or_empty(d) =~= Seq::<(Seq<char>, FieldDefObjectView)>::empty());
        },
    }
    let mut i: usize = 0;
    while i < doc.cards.len()
        invariant
            i <= doc.cards@.len(),
            d == doc@,
            forall|k: int| 0 <= k < i ==> keys_unique(custom_fields_or_empty(#[trigger] d.cards[k].1)),
        decreases doc.cards@.len() - i,
    {
        match &doc.cards[i].1.custom_fields {
            Some(cf) => {
                proof {
                    assert(d.cards[i as int].1 == doc.cards@[i as int].1@);
                    lemma_keys_view(cf@, custom_fields_or_empty(d.cards[i as int].1));
                }
                if !keys_distinct(cf) {
                    return false;
                }
            },
            None => {
                assert(custom_fields_or_empty(d.cards[i as int].1) =~= Seq::<(Seq<char>, ValueView)>::empty());
            },
        }
        i = i + 1;
    }
    true
}

} // verus!
