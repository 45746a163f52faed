//! What the board store derives from a board document: the card-number
//! index, the custom-field index, and the queries over that index.
use vstd::prelude::*;
use crate::text;
use crate::board;
use crate::field;
use crate::field::FieldType;
use crate::board::{BoardDoc, BoardDocView, CardObjectView, FieldDefObjectView, Value, ValueView};

verus! {

// ---------------------------------------------------------------------------
// The card-number index
// ---------------------------------------------------------------------------

/// The numbered cards of a board, in key order: each card that is not
/// deleted and has a text `number`, with that number.
pub open spec fn card_numbers_of(cards: Seq<(Seq<char>, CardObjectView)>) -> Seq<(Seq<char>, Seq<char>)>
    decreases cards.len(),
{
    if cards.len() == 0 {
        Seq::empty()
    } else {
        let rest = card_numbers_of(cards.drop_last());
        let (id, c) = cards.last();
        if !board::is_true(c.deleted) && board::as_text(c.number) is Some {
            rest.push((id, board::as_text(c.number)->0))
        } else {
            rest
        }
    }
}

pub open spec fn pairs_view(v: Seq<(String, String)>) -> Seq<(Seq<char>, Seq<char>)> {
    v.map_values(|p: (String, String)| (p.0@, p.1@))
}

/// The (card id, number) pairs that the card-number index holds for a board.
pub fn extract_card_numbers(doc: &BoardDoc) -> (r: Vec<(String, String)>)
    ensures
        pairs_view(r@) == card_numbers_of(doc@.cards),
{
    let ghost cv = doc@.cards;
    let mut r: Vec<(String, String)> = Vec::new();
    let mut i: usize = 0;
    while i < doc.cards.len()
        invariant
            i <= doc.cards@.len(),
            cv == doc@.cards,
            pairs_view(r@) == card_numbers_of(cv.take(i as int)),
        decreases doc.cards@.len() - i,
    {
        let (id, c) = (&doc.cards[i].0, &doc.cards[i].1);
        proof {
            assert(cv.take(i + 1).drop_last() =~= cv.take(i as int));
            assert(cv.take(i + 1).last() == (id@, c@));
        }
        if !board::is_true_exec(&c.deleted) {
            if let Some(Value::Str(n)) = &c.number {
                let ghost before = r@;
                r.push((id.clone(), n.clone()));
                assert(pairs_view(r@) =~= pairs_view(before).push((id@, n@)));
            }
        }
        i = i + 1;
    }
    assert(cv.take(i as int) =~= cv);
    r
}

// ---------------------------------------------------------------------------
// The custom-field index
// ---------------------------------------------------------------------------

/// The type of a field definition, when it names one.
pub open spec fn def_type(o: FieldDefObjectView) -> Option<FieldType> {
    match board::as_text(o.kind) {
        Some(t) => field::parse_field_type(t),
        None => None,
    }
}

/// The type of the field `id`, when it is defined with a type.
pub open spec fn type_of_field(defs: Seq<(Seq<char>, FieldDefObjectView)>, id: Seq<char>) -> Option<FieldType> {
    match board::lookup(defs, id) {
        Some(o) => def_type(o),
        None => None,
    }
}

/// A row of the custom-field index: card id, field id, the text value,
/// whether it is a number field's value (its number is parsed where the row
/// is stored), and the date for a date field.
pub struct IndexRow {
    pub card_id: String,
    pub field_id: String,
    pub value_text: String,
    pub is_number: bool,
    pub value_date: Option<String>,
}

pub struct IndexRowView {
    pub card_id: Seq<char>,
    pub field_id: Seq<char>,
    pub value_text: Seq<char>,
    pub is_number: bool,
    pub value_date: Option<Seq<char>>,
}

impl View for IndexRow {
    type V = IndexRowView;

    open spec fn view(&self) -> IndexRowView {
        IndexRowView {
            card_id: self.card_id@,
            field_id: self.field_id@,
            value_text: self.value_text@,
            is_number: self.is_number,
            value_date: field::opt_string_view(self.value_date),
        }
    }
}

pub open spec fn rows_view(v: Seq<IndexRow>) -> Seq<IndexRowView> {
    v.map_values(|r: IndexRow| r@)
}

/// The rows of one card: one per text value of its custom fields, in order.
pub open spec fn card_rows(
    card: Seq<char>,
    cf: Seq<(Seq<char>, ValueView)>,
    defs: Seq<(Seq<char>, FieldDefObjectView)>,
) -> Seq<IndexRowView>
    decreases cf.len(),
{
    if cf.len() == 0 {
        Seq::empty()
    } else {
        let rest = card_rows(card, cf.drop_last(), defs);
        let (fid, v) = cf.last();
        match v {
            ValueView::Str(t) => rest.push(
                IndexRowView {
                    card_id: card,
                    field_id: fid,
                    value_text: t,
                    is_number: type_of_field(defs, fid) == Some(FieldType::Number),
                    value_date: if type_of_field(defs, fid) == Some(FieldType::Date) {
                        Some(t)
                    } else {
                        None
                    },
                },
            ),
            _ => rest,
        }
    }
}

/// The rows of the cards that are not deleted, in key order.
pub open spec fn cards_rows(
    cards: Seq<(Seq<char>, CardObjectView)>,
    defs: Seq<(Seq<char>, FieldDefObjectView)>,
) -> Seq<IndexRowView>
    decreases cards.len(),
{
    if cards.len() == 0 {
        Seq::empty()
    } else {
        let rest = cards_rows(cards.drop_last(), defs);
        let (id, c) = cards.last();
        if board::is_true(c.deleted) {
            rest
        } else {
            match c.custom_fields {
                Some(cf) => rest + card_rows(id, cf, defs),
                None => rest,
            }
        }
    }
}

/// The custom-field index of a board: nothing without field definitions or
/// when none of them names a type.
pub open spec fn custom_field_rows(d: BoardDocView) -> Seq<IndexRowView> {
    match d.field_definitions {
        None => Seq::empty(),
        Some(defs) => if exists|i: int| 0 <= i < defs.len() && #[trigger] def_type(defs[i].1) is Some {
            cards_rows(d.cards, defs)
        } else {
            Seq::empty()
        },
    }
}

/// The type of a field definition object.
fn def_type_exec(o: &board::FieldDefObject) -> (r: Option<FieldType>)
    ensures
        r == def_type(o@),
{
    match &o.kind {
        Some(Value::Str(t)) => FieldType::from_str(t.as_str()),
        _ => None,
    }
}

/// The type of the field `id`.
fn type_of_field_exec(defs: &Vec<(String, board::FieldDefObject)>, id: &str) -> (r: Option<FieldType>)
    requires
        board::keys_unique(board::defs_view(defs@)),
    ensures
        r == type_of_field(board::defs_view(defs@), id@),
{
    let ghost dv = board::defs_view(defs@);
    match board::find_key(defs, id) {
        Some(k) => {
            proof {
                assert(dv[k as int].0 == id@);
                board::lemma_key_index(dv, id@, k as int);
                assert(dv[k as int].1 == defs@[k as int].1@);
            }
            def_type_exec(&defs[k].1)
        },
        None => {
            proof {
                assert forall|j: int| 0 <= j < dv.len() implies dv[j].0 != id@ by {
                    assert(dv[j].0 == defs@[j].0@);
                }
                board::lemma_key_index_none(dv, id@);
            }
            None
        },
    }
}

/// The index rows of one card's custom fields.
fn card_rows_exec(
    card: &String,
    cf: &Vec<(String, Value)>,
    defs: &Vec<(String, board::FieldDefObject)>,
    out: &mut Vec<IndexRow>,
)
    requires
        board::keys_unique(board::defs_view(defs@)),
    ensures
        rows_view(final(out)@) == rows_view(old(out)@) + card_rows(
            card@,
            board::entries_view(cf@),
            board::defs_view(defs@),
        ),
{
    let ghost start = rows_view(out@);
    let ghost cv = board::entries_view(cf@);
    let ghost dv = board::defs_view(defs@);
    let mut j: usize = 0;
    while j < cf.len()
        invariant
            j <= cf@.len(),
            cv == board::entries_view(cf@),
            dv == board::defs_view(defs@),
            board::keys_unique(dv),
            rows_view(out@) == start + card_rows(card@, cv.take(j as int), dv),
        decreases cf@.len() - j,
    {
        let (fid, v) = (&cf[j].0, &cf[j].1);
        proof {
            assert(cv.take(j + 1).drop_last() =~= cv.take(j as int));
            assert(cv.take(j + 1).last() == (fid@, v@));
        }
        if let Value::Str(t) = v {
            let ft = type_of_field_exec(defs, fid.as_str());
            let is_number = match ft {
                Some(FieldType::Number) => true,
                _ => false,
            };
            let value_date = match ft {
                Some(FieldType::Date) => Some(t.clone()),
                _ => None,
            };
            let row = IndexRow {
                card_id: card.clone(),
                field_id: fid.clone(),
                value_text: t.clone(),
                is_number,
                value_date,
            };
            let ghost before = out@;
            out.push(row);
            assert(rows_view(out@) =~= rows_view(before).push(row@));
        }
        j = j + 1;
    }
    assert(cv.take(j as int) =~= cv);
}

/// The rows that the custom-field index holds for a board.
pub fn extract_custom_fields(doc: &BoardDoc) -> (r: Vec<IndexRow>)
    requires
        board::doc_wf(doc@),
    ensures
        rows_view(r@) == custom_field_rows(doc@),
{
    let mut out: Vec<IndexRow> = Vec::new();
    let defs = match &doc.field_definitions {
        Some(d) => d,
        None => {
            assert(rows_view(out@) =~= Seq::<IndexRowView>::empty());
            return out;
        },
    };
    let ghost dv = board::defs_view(defs@);
    assert(dv == board::defs_or_empty(doc@));
    let mut any = false;
    let mut k: usize = 0;
    while k < defs.len()
        invariant
            k <= defs@.len(),
            dv == board::defs_view(defs@),
            any == exists|i: int| 0 <= i < k && #[trigger] def_type(dv[i].1) is Some,
        decreases defs@.len() - k,
    {
        assert(dv[k as int].1 == defs@[k as int].1@);
        if def_type_exec(&defs[k].1).is_some() {
            any = true;
        }
        k = k + 1;
    }
    if !any {
        assert(rows_view(out@) =~= Seq::<IndexRowView>::empty());
        return out;
    }
    let ghost cv = doc@.cards;
    let mut i: usize = 0;
    assert(rows_view(out@) =~= cards_rows(cv.take(0), dv));
    while i < doc.cards.len()
        invariant
            i <= doc.cards@.len(),
            cv == doc@.cards,
            dv == board::defs_view(defs@),
            board::keys_unique(dv),
            rows_view(out@) == cards_rows(cv.take(i as int), dv),
        decreases doc.cards@.len() - i,
    {
        let (id, c) = (&doc.cards[i].0, &doc.cards[i].1);
        proof {
            assert(cv.take(i + 1).drop_last() =~= cv.take(i as int));
            assert(cv.take(i + 1).last() == (id@, c@));
        }
        if !board::is_true_exec(&c.deleted) {
            if let Some(cf) = &c.custom_fields {
                card_rows_exec(id, cf, defs, &mut out);
            }
        }
        i = i + 1;
    }
    assert(cv.take(i as int) =~= cv);
    out
}

// ---------------------------------------------------------------------------
// Queries over the custom-field index
// ---------------------------------------------------------------------------

/// The SQL comparison for a filter operator: `~` is `LIKE`, an unknown
/// operator is `=`.
pub open spec fn sql_op_of(op: Seq<char>) -> Seq<char> {
    if op == "="@ {
        "="@
    } else if op == "!="@ {
        "!="@
    } else if op == ">"@ {
        ">"@
    } else if op == ">="@ {
        ">="@
    } else if op == "<"@ {
        "<"@
    } else if op == "<="@ {
        "<="@
    } else if op == "~"@ {
        "LIKE"@
    } else {
        "="@
    }
}

/// The column of the index that a field type is compared on.
pub open spec fn value_column(t: FieldType) -> Seq<char> {
    match t {
        FieldType::Number => "value_num"@,
        FieldType::Date => "value_date"@,
        _ => "value_text"@,
    }
}

/// The query for the cards whose field compares to a value.
pub open spec fn field_query_sql_text(t: FieldType, op: Seq<char>) -> Seq<char> {
    "SELECT card_id FROM card_custom_field_index\n                 WHERE board_id = ?1 AND field_id = ?2 AND "@
        + value_column(t) + " "@ + sql_op_of(op) + " ?3"@
}

/// The SQL comparison for a filter operator.
pub fn sql_op(op: &str) -> (r: &'static str)
    ensures
        r@ == sql_op_of(op@),
{
    if text::str_eq(op, "=") {
        "="
    } else if text::str_eq(op, "!=") {
        "!="
    } else if text::str_eq(op, ">") {
        ">"
    } else if text::str_eq(op, ">=") {
        ">="
    } else if text::str_eq(op, "<") {
        "<"
    } else if text::str_eq(op, "<=") {
        "<="
    } else if text::str_eq(op, "~") {
        "LIKE"
    } else {
        "="
    }
}

/// The query for the cards of a board whose field `?2` compares to `?3`.
pub fn field_query_sql(t: FieldType, op: &str) -> (r: String)
    ensures
        r@ == field_query_sql_text(t, op@),
{
    let mut s =
        "SELECT card_id FROM card_custom_field_index\n                 WHERE board_id = ?1 AND field_id = ?2 AND ".to_owned();
    let col = match t {
        FieldType::Number => "value_num",
        FieldType::Date => "value_date",
        _ => "value_text",
    };
    text::push_str(&mut s, col);
    text::push_str(&mut s, " ");
    text::push_str(&mut s, sql_op(op));
    text::push_str(&mut s, " ?3");
    s
}

/// The value a text or date query compares with: `%value%` for `~`, else
/// the value itself.
pub fn field_query_value(op: &str, value: &str) -> (r: String)
    ensures
        r@ == (if op@ == "~"@ { "%"@ + value@ + "%"@ } else { value@ }),
{
    if text::str_eq(op, "~") {
        let mut s = "%".to_owned();
        text::push_str(&mut s, value);
        text::push_str(&mut s, "%");
        s
    } else {
        value.to_owned()
    }
}


// ---------------------------------------------------------------------------
// Laws of the custom-field index
// ---------------------------------------------------------------------------

/// The index row for the text value `t` of field `fid` on card `card`.
pub open spec fn row_of(card: Seq<char>, fid: Seq<char>, t: Seq<char>, defs: Seq<(Seq<char>, FieldDefObjectView)>) -> IndexRowView {
    IndexRowView {
        card_id: card,
        field_id: fid,
        value_text: t,
        is_number: type_of_field(defs, fid) == Some(FieldType::Number),
        value_date: if type_of_field(defs, fid) == Some(FieldType::Date) {
            Some(t)
        } else {
            None
        },
    }
}

/// Whether entry `j` of the custom fields `cf` of card `card` is a text value
/// whose row is `x`.
pub open spec fn entry_gives_row(
    card: Seq<char>,
    cf: Seq<(Seq<char>, ValueView)>,
    j: int,
    defs: Seq<(Seq<char>, FieldDefObjectView)>,
    x: IndexRowView,
) -> bool {
    0 <= j < cf.len() && cf[j].1 is Str && x == row_of(card, cf[j].0, cf[j].1->Str_0, defs)
}

proof fn lemma_card_rows_members(card: Seq<char>, cf: Seq<(Seq<char>, ValueView)>, defs: Seq<(Seq<char>, FieldDefObjectView)>)
    ensures
        forall|x: IndexRowView| #[trigger] card_rows(card, cf, defs).contains(x) <==> exists|j: int|
            #[trigger] entry_gives_row(card, cf, j, defs, x),
    decreases cf.len(),
{
    if cf.len() > 0 {
        let pre = cf.drop_last();
        lemma_card_rows_members(card, pre, defs);
        let r = card_rows(card, cf, defs);
        let rp = card_rows(card, pre, defs);
        let n = cf.len() - 1;
        assert forall|x: IndexRowView| #[trigger] r.contains(x) <==> exists|j: int| #[trigger] entry_gives_row(card, cf, j, defs, x) by {
            if r.contains(x) {
                let q = choose|q: int| 0 <= q < r.len() && r[q] == x;
                if q < rp.len() {
                    assert(r[q] == rp[q]);
                    assert(rp.contains(x));
                    let j = choose|j: int| #[trigger] entry_gives_row(card, pre, j, defs, x);
                    assert(pre[j] == cf[j]);
                    assert(entry_gives_row(card, cf, j, defs, x));
                } else {
                    assert(entry_gives_row(card, cf, n, defs, x));
                }
            }
            if exists|j: int| #[trigger] entry_gives_row(card, cf, j, defs, x) {
                let j = choose|j: int| #[trigger] entry_gives_row(card, cf, j, defs, x);
                if j < n {
                    assert(pre[j] == cf[j]);
                    assert(entry_gives_row(card, pre, j, defs, x));
                    assert(rp.contains(x));
                    let q = choose|q: int| 0 <= q < rp.len() && rp[q] == x;
                    assert(r[q] == x);
                } else {
                    assert(r[r.len() - 1] == x);
                }
            }
        }
    }
}

/// Whether card `i` of `cards` is live and its custom-field entry `j` is a
/// text value whose row is `x`.
pub open spec fn card_gives_row(
    cards: Seq<(Seq<char>, CardObjectView)>,
    i: int,
    j: int,
    defs: Seq<(Seq<char>, FieldDefObjectView)>,
    x: IndexRowView,
) -> bool {
    &&& 0 <= i < cards.len()
    &&& !board::is_true(cards[i].1.deleted)
    &&& entry_gives_row(cards[i].0, board::custom_fields_or_empty(cards[i].1), j, defs, x)
}

/// The rows of the custom-field index are exactly one row for each text
/// value of a live card's custom fields: the card, the field, the text, and
/// the number and date flags that the field's type gives.
pub proof fn law_index_rows_are_live_text_values(
    cards: Seq<(Seq<char>, CardObjectView)>,
    defs: Seq<(Seq<char>, FieldDefObjectView)>,
)
    ensures
        forall|x: IndexRowView| #[trigger] cards_rows(cards, defs).contains(x) <==> exists|i: int, j: int|
            #[trigger] card_gives_row(cards, i, j, defs, x),
    decreases cards.len(),
{
    if cards.len() > 0 {
        let pre = cards.drop_last();
        law_index_rows_are_live_text_values(pre, defs);
        let n = cards.len() - 1;
        let (id, c) = cards.last();
        let cf = board::custom_fields_or_empty(c);
        lemma_card_rows_members(id, cf, defs);
        let r = cards_rows(cards, defs);
        let rp = cards_rows(pre, defs);
        let live = !board::is_true(c.deleted);
        let extra = if live { card_rows(id, cf, defs) } else { Seq::empty() };
        assert(r =~= rp + extra) by {
            if live && c.custom_fields is None {
                assert(card_rows(id, cf, defs) =~= Seq::<IndexRowView>::empty());
            }
        }
        assert forall|x: IndexRowView| #[trigger] r.contains(x) <==> exists|i: int, j: int| #[trigger] card_gives_row(cards, i, j, defs, x) by {
            if r.contains(x) {
                let q = choose|q: int| 0 <= q < r.len() && r[q] == x;
                if q < rp.len() {
                    assert(rp[q] == x);
                    assert(rp.contains(x));
                    let (i, j) = choose|i: int, j: int| #[trigger] card_gives_row(pre, i, j, defs, x);
                    assert(pre[i] == cards[i]);
                    assert(card_gives_row(cards, i, j, defs, x));
                } else {
                    assert(extra[q - rp.len()] == x);
                    assert(extra.contains(x));
                    assert(live);
                    let j = choose|j: int| #[trigger] entry_gives_row(id, cf, j, defs, x);
                    assert(card_gives_row(cards, n, j, defs, x));
                }
            }
            if exists|i: int, j: int| #[trigger] card_gives_row(cards, i, j, defs, x) {
                let (i, j) = choose|i: int, j: int| #[trigger] card_gives_row(cards, i, j, defs, x);
                if i < n {
                    assert(pre[i] == cards[i]);
                    assert(card_gives_row(pre, i, j, defs, x));
                    assert(rp.contains(x));
                    let q = choose|q: int| 0 <= q < rp.len() && rp[q] == x;
                    assert(r[q] == x);
                } else {
                    assert(entry_gives_row(id, cf, j, defs, x));
                    assert(extra.contains(x));
                    let q = choose|q: int| 0 <= q < extra.len() && extra[q] == x;
                    assert(r[rp.len() + q] == x);
                }
            }
        }
    }
}


/// No two rows are for the same card and field.
pub open spec fn rows_distinct(rows: Seq<IndexRowView>) -> bool {
    forall|p: int, q: int|
        0 <= p < q < rows.len() ==> (#[trigger] rows[p]).card_id != (#[trigger] rows[q]).card_id || rows[p].field_id
            != rows[q].field_id
}

proof fn lemma_card_rows_distinct(card: Seq<char>, cf: Seq<(Seq<char>, ValueView)>, defs: Seq<(Seq<char>, FieldDefObjectView)>)
    requires
        board::keys_unique(cf),
    ensures
        rows_distinct(card_rows(card, cf, defs)),
        forall|p: int| 0 <= p < card_rows(card, cf, defs).len() ==> (#[trigger] card_rows(card, cf, defs)[p]).card_id == card
            && exists|j: int| 0 <= j < cf.len() && cf[j].0 == card_rows(card, cf, defs)[p].field_id,
    decreases cf.len(),
{
    if cf.len() > 0 {
        let pre = cf.drop_last();
        assert(board::keys_unique(pre)) by {
            assert forall|i: int, j: int| 0 <= i < pre.len() && 0 <= j < pre.len() && i != j implies pre[i].0 != pre[j].0 by {
                assert(pre[i] == cf[i] && pre[j] == cf[j]);
            }
        }
        lemma_card_rows_distinct(card, pre, defs);
        let r = card_rows(card, cf, defs);
        let rp = card_rows(card, pre, defs);
        let n = cf.len() - 1;
        assert forall|p: int| 0 <= p < r.len() implies (#[trigger] r[p]).card_id == card && exists|j: int|
            0 <= j < cf.len() && cf[j].0 == r[p].field_id by {
            if p < rp.len() {
                assert(r[p] == rp[p]);
                let j = choose|j: int| 0 <= j < pre.len() && pre[j].0 == rp[p].field_id;
                assert(cf[j] == pre[j]);
            } else {
                assert(cf[n].0 == r[p].field_id);
            }
        }
        assert forall|p: int, q: int| 0 <= p < q < r.len() implies (#[trigger] r[p]).card_id != (#[trigger] r[q]).card_id
            || r[p].field_id != r[q].field_id by {
            if q < rp.len() {
                assert(r[p] == rp[p] && r[q] == rp[q]);
            } else {
                assert(r[p] == rp[p]);
                let j = choose|j: int| 0 <= j < pre.len() && pre[j].0 == rp[p].field_id;
                assert(cf[j] == pre[j]);
                assert(r[q].field_id == cf[n].0);
            }
        }
    }
}

/// The custom-field index of a well-formed board holds at most one row for
/// each card and field.
pub proof fn law_index_rows_distinct(d: BoardDocView)
    requires
        board::doc_wf(d),
    ensures
        rows_distinct(custom_field_rows(d)),
{
    match d.field_definitions {
        None => {},
        Some(defs) => {
            lemma_cards_rows_distinct(d.cards, defs);
        },
    }
}

proof fn lemma_cards_rows_distinct(cards: Seq<(Seq<char>, CardObjectView)>, defs: Seq<(Seq<char>, FieldDefObjectView)>)
    requires
        board::keys_unique(cards),
        forall|i: int| 0 <= i < cards.len() ==> board::keys_unique(board::custom_fields_or_empty(#[trigger] cards[i].1)),
    ensures
        rows_distinct(cards_rows(cards, defs)),
        forall|p: int| 0 <= p < cards_rows(cards, defs).len() ==> exists|i: int|
            0 <= i < cards.len() && cards[i].0 == (#[trigger] cards_rows(cards, defs)[p]).card_id,
    decreases cards.len(),
{
    if cards.len() > 0 {
        let pre = cards.drop_last();
        let n = cards.len() - 1;
        assert(board::keys_unique(pre)) by {
            assert forall|i: int, j: int| 0 <= i < pre.len() && 0 <= j < pre.len() && i != j implies pre[i].0 != pre[j].0 by {
                assert(pre[i] == cards[i] && pre[j] == cards[j]);
            }
        }
        assert forall|i: int| 0 <= i < pre.len() implies board::keys_unique(board::custom_fields_or_empty(#[trigger] pre[i].1)) by {
            assert(pre[i] == cards[i]);
        }
        lemma_cards_rows_distinct(pre, defs);
        let (id, c) = cards.last();
        let cf = board::custom_fields_or_empty(c);
        assert(board::keys_unique(cf)) by {
            assert(cards[n].1 == c);
        }
        lemma_card_rows_distinct(id, cf, defs);
        let rp = cards_rows(pre, defs);
        let live = !board::is_true(c.deleted);
        let extra = if live { card_rows(id, cf, defs) } else { Seq::empty() };
        let r = cards_rows(cards, defs);
        assert(r =~= rp + extra) by {
            if live && c.custom_fields is None {
                assert(card_rows(id, cf, defs) =~= Seq::<IndexRowView>::empty());
            }
        }
        assert forall|p: int| 0 <= p < r.len() implies exists|i: int| 0 <= i < cards.len() && cards[i].0 == (#[trigger] r[p]).card_id by {
            if p < rp.len() {
                assert(r[p] == rp[p]);
                let i = choose|i: int| 0 <= i < pre.len() && pre[i].0 == rp[p].card_id;
                assert(cards[i] == pre[i]);
            } else {
                assert(r[p] == extra[p - rp.len()]);
                assert(cards[n].0 == r[p].card_id);
            }
        }
        assert forall|p: int, q: int| 0 <= p < q < r.len() implies (#[trigger] r[p]).card_id != (#[trigger] r[q]).card_id
            || r[p].field_id != r[q].field_id by {
            if q < rp.len() {
                assert(r[p] == rp[p] && r[q] == rp[q]);
            } else if p >= rp.len() {
                assert(r[p] == extra[p - rp.len()] && r[q] == extra[q - rp.len()]);
            } else {
                assert(r[p] == rp[p]);
                assert(r[q] == extra[q - rp.len()]);
                let i = choose|i: int| 0 <= i < pre.len() && pre[i].0 == rp[p].card_id;
                assert(cards[i] == pre[i]);
                assert(cards[i].0 != cards[n].0);
            }
        }
    }
}


// ---------------------------------------------------------------------------
// Laws of the field queries
// ---------------------------------------------------------------------------

/// What SQL's comparison `sql` says of two numbers: `=`, `!=`, `<`, `<=`,
/// `>`, `>=` as in arithmetic.
pub open spec fn sql_number_holds(sql: Seq<char>, a: int, b: int) -> bool {
    if sql == seq!['='] {
        a == b
    } else if sql == seq!['!', '='] {
        a != b
    } else if sql == seq!['<'] {
        a < b
    } else if sql == seq!['<', '='] {
        a <= b
    } else if sql == seq!['>'] {
        a > b
    } else if sql == seq!['>', '='] {
        a >= b
    } else {
        false
    }
}

/// Each comparison of a `--where` filter becomes the SQL comparison of the
/// same meaning: for all values, the query keeps exactly the rows whose
/// value stands to the filter's value as the filter says (`Amount<=10000`
/// keeps an amount of 10000, `Amount<10000` does not). `~` becomes `LIKE`,
/// and an operator the filter does not know compares for equality.
pub proof fn law_filter_ops_keep_their_meaning(a: int, b: int, op: Seq<char>)
    ensures
        sql_number_holds(sql_op_of(seq!['=']), a, b) == (a == b),
        sql_number_holds(sql_op_of(seq!['!', '=']), a, b) == (a != b),
        sql_number_holds(sql_op_of(seq!['<']), a, b) == (a < b),
        sql_number_holds(sql_op_of(seq!['<', '=']), a, b) == (a <= b),
        sql_number_holds(sql_op_of(seq!['>']), a, b) == (a > b),
        sql_number_holds(sql_op_of(seq!['>', '=']), a, b) == (a >= b),
        sql_op_of(seq!['~']) == seq!['L', 'I', 'K', 'E'],
        op != seq!['='] && op != seq!['!', '='] && op != seq!['<'] && op != seq!['<', '='] && op != seq!['>'] && op
            != seq!['>', '='] && op != seq!['~'] ==> sql_number_holds(sql_op_of(op), a, b) == (a == b),
{
    reveal_strlit("=");
    reveal_strlit("!=");
    reveal_strlit("<");
    reveal_strlit("<=");
    reveal_strlit(">");
    reveal_strlit(">=");
    reveal_strlit("~");
    reveal_strlit("LIKE");
    assert("="@ =~= seq!['=']);
    assert("!="@ =~= seq!['!', '=']);
    assert("<"@ =~= seq!['<']);
    assert("<="@ =~= seq!['<', '=']);
    assert(">"@ =~= seq!['>']);
    assert(">="@ =~= seq!['>', '=']);
    assert("~"@ =~= seq!['~']);
    assert("LIKE"@ =~= seq!['L', 'I', 'K', 'E']);
    assert(seq!['<'] != seq!['<', '=']);
    assert(seq!['>'] != seq!['>', '=']);
    assert(seq!['='] != seq!['!', '=']);
    assert(seq!['<', '='][0] != seq!['!', '='][0]);
    assert(seq!['<', '='] != seq!['!', '=']);
    assert(seq!['<'][0] != seq!['='][0]);
    assert(seq!['<'] != seq!['=']);
    assert(seq!['>'][0] != seq!['='][0] && seq!['>'][0] != seq!['<'][0]);
    assert(seq!['>'] != seq!['='] && seq!['>'] != seq!['<']);
    assert(seq!['>', '='][0] != seq!['!', '='][0] && seq!['>', '='][0] != seq!['<', '='][0]);
    assert(seq!['>', '='] != seq!['!', '='] && seq!['>', '='] != seq!['<', '=']);
    assert(seq!['<', '='].len() != seq!['='].len() && seq!['<', '='].len() != seq!['<'].len());
    assert(seq!['!', '='].len() != seq!['='].len());
}

} // verus!
