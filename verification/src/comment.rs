//! Comments on cards: adding, soft-deleting, editing and listing them.
use vstd::prelude::*;
use crate::board;
use crate::board::{BoardDoc, BoardDocView, CardObjectView, CommentObject, CommentObjectView, DocError, DocErrorView, Value, ValueView};
use crate::clock;
use crate::clock::HybridClock;
use crate::field;

verus! {

/// A comment as the board shows it.
#[derive(Debug, Clone)]
pub struct Comment {
    pub id: String,
    pub author: String,
    pub text: String,
    pub created_at: String,
    pub deleted: bool,
    pub avatar_url: Option<String>,
    pub image_b64: Option<String>,
    pub image_mime: Option<String>,
    pub image_name: Option<String>,
}

pub struct CommentView {
    pub id: Seq<char>,
    pub author: Seq<char>,
    pub text: Seq<char>,
    pub created_at: Seq<char>,
    pub deleted: bool,
    pub avatar_url: Option<Seq<char>>,
    pub image_b64: Option<Seq<char>>,
    pub image_mime: Option<Seq<char>>,
    pub image_name: Option<Seq<char>>,
}

impl View for Comment {
    type V = CommentView;

    open spec fn view(&self) -> CommentView {
        CommentView {
            id: self.id@,
            author: self.author@,
            text: self.text@,
            created_at: self.created_at@,
            deleted: self.deleted,
            avatar_url: field::opt_string_view(self.avatar_url),
            image_b64: field::opt_string_view(self.image_b64),
            image_mime: field::opt_string_view(self.image_mime),
            image_name: field::opt_string_view(self.image_name),
        }
    }
}

pub open spec fn comment_views(s: Seq<Comment>) -> Seq<CommentView> {
    s.map_values(|c: Comment| c@)
}

pub open spec fn missing_comments_message() -> Seq<char> {
    "card missing comments list"@
}

/// The comments list of card `card`, or the error that looking it up gives.
pub open spec fn comments_of(d: BoardDocView, card: Seq<char>) -> Result<Seq<CommentObjectView>, DocErrorView> {
    match board::lookup(d.cards, card) {
        None => Err(DocErrorView::NotFound(card)),
        Some(c) => match c.comments {
            None => Err(DocErrorView::InvalidDocument(missing_comments_message())),
            Some(l) => Ok(l),
        },
    }
}

/// `i` is the first comment whose `id` is the text `id`.
pub open spec fn is_first_comment(l: Seq<CommentObjectView>, id: Seq<char>, i: int) -> bool {
    &&& 0 <= i < l.len()
    &&& board::as_text(l[i].id) == Some(id)
    &&& forall|j: int| 0 <= j < i ==> board::as_text(l[j].id) != Some(id)
}

/// The position of the first comment with the id `id`.
pub open spec fn comment_index(l: Seq<CommentObjectView>, id: Seq<char>) -> Option<int> {
    if exists|i: int| is_first_comment(l, id, i) {
        Some(choose|i: int| is_first_comment(l, id, i))
    } else {
        None
    }
}

pub proof fn lemma_comment_index(l: Seq<CommentObjectView>, id: Seq<char>, i: int)
    requires
        is_first_comment(l, id, i),
    ensures
        comment_index(l, id) == Some(i),
{
    let k = choose|k: int| is_first_comment(l, id, k);
    assert(is_first_comment(l, id, k));
    if k < i {
        assert(board::as_text(l[k].id) != Some(id));
    }
    if i < k {
        assert(board::as_text(l[i].id) != Some(id));
    }
}

proof fn lemma_comment_index_bounds(l: Seq<CommentObjectView>, id: Seq<char>)
    ensures
        comment_index(l, id) matches Some(i) ==> is_first_comment(l, id, i),
{
    if exists|i: int| is_first_comment(l, id, i) {
        let k = choose|i: int| is_first_comment(l, id, i);
        assert(is_first_comment(l, id, k));
    }
}

/// Whether the comment `id` of card `card` can be found, or the error that looking for it gives.
pub open spec fn comment_found(d: BoardDocView, card: Seq<char>, id: Seq<char>) -> Result<(), DocErrorView> {
    match comments_of(d, card) {
        Err(e) => Err(e),
        Ok(l) => if comment_index(l, id) is Some {
            Ok(())
        } else {
            Err(DocErrorView::NotFound(id))
        },
    }
}

/// The document with the comments list of card `card` replaced by `l`.
pub open spec fn with_comments(d: BoardDocView, card: Seq<char>, l: Seq<CommentObjectView>) -> BoardDocView {
    let c = board::lookup(d.cards, card)->0;
    BoardDocView { cards: board::put(d.cards, card, CardObjectView { comments: Some(l), ..c }), ..d }
}

/// The comments list of a card object, or the error for a card without one.
pub fn get_comments_list(card: &board::CardObject) -> (r: Result<&Vec<CommentObject>, DocError>)
    ensures
        match card.comments {
            Some(l) => r matches Ok(x) && x@ == l@,
            None => r matches Err(e) && e@ == DocErrorView::InvalidDocument(missing_comments_message()),
        },
{
    match &card.comments {
        Some(l) => Ok(l),
        None => {
            proof {
                reveal_strlit("card missing comments list");
            }
            Err(DocError::InvalidDocument("card missing comments list".to_owned()))
        },
    }
}

/// Finds card `card_id` and checks that it has a comments list.
fn find_comments(doc: &BoardDoc, card_id: &str) -> (r: Result<usize, DocError>)
    requires
        board::doc_wf(doc@),
    ensures
        match r {
            Ok(i) => i < doc.cards@.len() && doc.cards@[i as int].0@ == card_id@ && board::key_index(
                doc@.cards,
                card_id@,
            ) == Some(i as int) && comments_of(doc@, card_id@) == Ok::<
                Seq<CommentObjectView>,
                DocErrorView,
            >(doc@.cards[i as int].1.comments->0) && doc.cards@[i as int].1.comments is Some,
            Err(e) => comments_of(doc@, card_id@) == Err::<Seq<CommentObjectView>, DocErrorView>(e@),
        },
{
    let i = match board::find_card(doc, card_id) {
        Some(i) => i,
        None => return Err(DocError::NotFound(card_id.to_owned())),
    };
    match &doc.cards[i].1.comments {
        None => {
            let msg = "card missing comments list".to_owned();
            Err(DocError::InvalidDocument(msg))
        },
        Some(_) => Ok(i),
    }
}

/// The position of the first comment with the id `id`.
fn find_comment(l: &Vec<CommentObject>, id: &str) -> (r: Option<usize>)
    ensures
        match r {
            Some(i) => comment_index(board::comments_view(l@), id@) == Some(i as int),
            None => comment_index(board::comments_view(l@), id@) is None,
        },
{
    let mut i: usize = 0;
    let ghost lv = board::comments_view(l@);
    while i < l.len()
        invariant
            i <= l@.len(),
            lv == board::comments_view(l@),
            forall|j: int| 0 <= j < i ==> board::as_text(lv[j].id) != Some(id@),
        decreases l@.len() - i,
    {
        assert(lv[i as int] == l@[i as int]@);
        match &l[i].id {
            Some(Value::Str(s)) => {
                if crate::text::str_eq(s.as_str(), id) {
                    proof {
                        lemma_comment_index(lv, id@, i as int);
                    }
                    return Some(i);
                }
            },
            _ => {},
        }
        i = i + 1;
    }
    None
}

/// The comment object that adding a comment appends.
pub open spec fn new_comment_object(
    id: Seq<char>,
    author: Seq<char>,
    text: Seq<char>,
    created_at: Seq<char>,
    image_b64: Option<Seq<char>>,
    image_mime: Option<Seq<char>>,
    image_name: Option<Seq<char>>,
) -> CommentObjectView {
    CommentObjectView {
        id: Some(ValueView::Str(id)),
        author: Some(ValueView::Str(author)),
        text: Some(ValueView::Str(text)),
        created_at: Some(ValueView::Str(created_at)),
        deleted: Some(ValueView::Boolean(false)),
        edited_at: None,
        avatar_url: None,
        image_b64: match image_b64 {
            Some(s) => Some(ValueView::Str(s)),
            None => None,
        },
        image_mime: match image_mime {
            Some(s) => Some(ValueView::Str(s)),
            None => None,
        },
        image_name: match image_name {
            Some(s) => Some(ValueView::Str(s)),
            None => None,
        },
        mail_message_id: None,
    }
}

pub open spec fn opt_str_view(s: Option<&str>) -> Option<Seq<char>> {
    match s {
        Some(x) => Some(x@),
        None => None,
    }
}

fn opt_str_value(s: Option<&str>) -> (r: Option<Value>)
    ensures
        board::opt_value_view(r) == (match opt_str_view(s) {
            Some(x) => Some(ValueView::Str(x)),
            None => None,
        }),
{
    match s {
        Some(x) => Some(Value::Str(x.to_owned())),
        None => None,
    }
}

fn opt_str_string(s: Option<&str>) -> (r: Option<String>)
    ensures
        field::opt_string_view(r) == opt_str_view(s),
{
    match s {
        Some(x) => Some(x.to_owned()),
        None => None,
    }
}

/// Replaces card `i` of the document by `c` (same key) and keeps the document well formed.
pub proof fn lemma_put_card_back(d: BoardDocView, card: Seq<char>, i: int, c: CardObjectView)
    requires
        board::doc_wf(d),
        board::key_index(d.cards, card) == Some(i),
        c.custom_fields == d.cards[i].1.custom_fields,
    ensures
        board::doc_wf(BoardDocView { cards: board::put(d.cards, card, c), ..d }),
        board::put(d.cards, card, c) == d.cards.update(i, (card, c)),
{
    board::lemma_key_index_bounds(d.cards, card);
    let n = BoardDocView { cards: board::put(d.cards, card, c), ..d };
    assert forall|j: int| 0 <= j < n.cards.len() implies board::keys_unique(
        board::custom_fields_or_empty(#[trigger] n.cards[j].1),
    ) by {
        if j != i {
            assert(n.cards[j] == d.cards[j]);
        }
    }
}

/// Adds a comment with the given id and creation time to the end of the
/// comments of card `card_id`.
pub fn add_comment_with(
    doc: &mut BoardDoc,
    card_id: &str,
    comment_id: String,
    created_at: String,
    text: &str,
    author_key: &str,
    image_b64: Option<&str>,
    image_mime: Option<&str>,
    image_name: Option<&str>,
) -> (r: Result<Comment, DocError>)
    requires
        board::doc_wf(old(doc)@),
    ensures
        board::doc_wf(final(doc)@),
        match comments_of(old(doc)@, card_id@) {
            Err(g) => r matches Err(e) && e@ == g && final(doc)@ == old(doc)@,
            Ok(l) => r matches Ok(c) && final(doc)@ == with_comments(
                old(doc)@,
                card_id@,
                l.push(
                    new_comment_object(
                        comment_id@,
                        author_key@,
                        text@,
                        created_at@,
                        opt_str_view(image_b64),
                        opt_str_view(image_mime),
                        opt_str_view(image_name),
                    ),
                ),
            ) && c@ == (CommentView {
                id: comment_id@,
                author: author_key@,
                text: text@,
                created_at: created_at@,
                deleted: false,
                avatar_url: None,
                image_b64: opt_str_view(image_b64),
                image_mime: opt_str_view(image_mime),
                image_name: opt_str_view(image_name),
            }),
        },
{
    let i = match find_comments(doc, card_id) {
        Ok(i) => i,
        Err(e) => return Err(e),
    };
    let ghost d = doc@;
    let (k, mut card) = doc.cards.remove(i);
    let ghost old_card = card@;
    let mut list = match card.comments.take() {
        Some(l) => l,
        None => Vec::new(),
    };
    let obj = CommentObject {
        id: Some(Value::Str(comment_id.clone())),
        author: Some(Value::Str(author_key.to_owned())),
        text: Some(Value::Str(text.to_owned())),
        created_at: Some(Value::Str(created_at.clone())),
        deleted: Some(Value::Boolean(false)),
        edited_at: None,
        avatar_url: None,
        image_b64: opt_str_value(image_b64),
        image_mime: opt_str_value(image_mime),
        image_name: opt_str_value(image_name),
        mail_message_id: None,
    };
    list.push(obj);
    card.comments = Some(list);
    doc.cards.insert(i, (k, card));
    proof {
        let l = d.cards[i as int].1.comments->0;
        let nl = l.push(
            new_comment_object(
                comment_id@,
                author_key@,
                text@,
                created_at@,
                opt_str_view(image_b64),
                opt_str_view(image_mime),
                opt_str_view(image_name),
            ),
        );
        let nc = CardObjectView { comments: Some(nl), ..old_card };
        assert(board::comments_view(list@) =~= nl);
        lemma_put_card_back(d, card_id@, i as int, nc);
        assert(doc@.cards =~= d.cards.update(i as int, (card_id@, nc)));
    }
    Ok(
        Comment {
            id: comment_id,
            author: author_key.to_owned(),
            text: text.to_owned(),
            created_at,
            deleted: false,
            avatar_url: None,
            image_b64: opt_str_string(image_b64),
            image_mime: opt_str_string(image_mime),
            image_name: opt_str_string(image_name),
        },
    )
}

/// Adds a comment to card `card_id` under a fresh random id, stamped with the
/// next timestamp of `clock`.
pub fn add_comment(
    doc: &mut BoardDoc,
    clock: &mut HybridClock,
    card_id: &str,
    text: &str,
    author_key: &str,
    image_b64: Option<&str>,
    image_mime: Option<&str>,
    image_name: Option<&str>,
) -> (r: Result<Comment, DocError>)
    requires
        board::doc_wf(old(doc)@),
    ensures
        board::doc_wf(final(doc)@),
        match comments_of(old(doc)@, card_id@) {
            Err(g) => r matches Err(e) && e@ == g && final(doc)@ == old(doc)@ && final(clock).counter()
                == old(clock).counter(),
            Ok(l) => r matches Ok(c) && final(doc)@ == with_comments(
                old(doc)@,
                card_id@,
                l.push(
                    new_comment_object(
                        c.id@,
                        author_key@,
                        text@,
                        c.created_at@,
                        opt_str_view(image_b64),
                        opt_str_view(image_mime),
                        opt_str_view(image_name),
                    ),
                ),
            ) && (exists|w: u64| c.created_at@ == clock::hlc_text(w, old(clock).counter())) && c@
                == (CommentView {
                id: c.id@,
                author: author_key@,
                text: text@,
                created_at: c.created_at@,
                deleted: false,
                avatar_url: None,
                image_b64: opt_str_view(image_b64),
                image_mime: opt_str_view(image_mime),
                image_name: opt_str_view(image_name),
            }),
        },
{
    match find_comments(doc, card_id) {
        Ok(_) => {},
        Err(e) => return Err(e),
    }
    let comment_id = board::new_uuid();
    let hlc = clock::now(clock);
    add_comment_with(doc, card_id, comment_id, hlc, text, author_key, image_b64, image_mime, image_name)
}

/// The comments of card `card` after writing `edit` into the first comment with id `id`.
pub open spec fn edited_comments(
    l: Seq<CommentObjectView>,
    id: Seq<char>,
    edit: spec_fn(CommentObjectView) -> CommentObjectView,
) -> Seq<CommentObjectView> {
    match comment_index(l, id) {
        Some(i) => l.update(i, edit(l[i])),
        None => l,
    }
}

pub open spec fn delete_edit() -> spec_fn(CommentObjectView) -> CommentObjectView {
    |c: CommentObjectView| CommentObjectView { deleted: Some(ValueView::Boolean(true)), ..c }
}

pub open spec fn text_edit(text: Seq<char>, edited_at: Seq<char>) -> spec_fn(CommentObjectView) -> CommentObjectView {
    |c: CommentObjectView|
        CommentObjectView {
            text: Some(ValueView::Str(text)),
            edited_at: Some(ValueView::Str(edited_at)),
            ..c
        }
}

pub open spec fn avatar_edit(url: Seq<char>) -> spec_fn(CommentObjectView) -> CommentObjectView {
    |c: CommentObjectView| CommentObjectView { avatar_url: Some(ValueView::Str(url)), ..c }
}

pub open spec fn mail_id_edit(msg_id: Seq<char>) -> spec_fn(CommentObjectView) -> CommentObjectView {
    |c: CommentObjectView| CommentObjectView { mail_message_id: Some(ValueView::Str(msg_id)), ..c }
}

/// The outcome of an edit of the comment `id` of card `card`: the document
/// after it, or the error (the card, its comments list or the comment is missing).
pub open spec fn comment_edit_outcome(
    d: BoardDocView,
    card: Seq<char>,
    id: Seq<char>,
    edit: spec_fn(CommentObjectView) -> CommentObjectView,
) -> Result<BoardDocView, DocErrorView> {
    match comments_of(d, card) {
        Err(e) => Err(e),
        Ok(l) => match comment_index(l, id) {
            None => Err(DocErrorView::NotFound(id)),
            Some(_) => Ok(with_comments(d, card, edited_comments(l, id, edit))),
        },
    }
}

/// Which edit `apply_comment_edit` makes.
enum CommentEdit {
    Delete,
    Text(String, String),
    Avatar(String),
    MailId(String),
}

spec fn comment_edit_fn(e: CommentEdit) -> spec_fn(CommentObjectView) -> CommentObjectView {
    match e {
        CommentEdit::Delete => delete_edit(),
        CommentEdit::Text(t, at) => text_edit(t@, at@),
        CommentEdit::Avatar(u) => avatar_edit(u@),
        CommentEdit::MailId(m) => mail_id_edit(m@),
    }
}

fn apply_comment_edit(doc: &mut BoardDoc, card_id: &str, comment_id: &str, edit: CommentEdit) -> (r: Result<(), DocError>)
    requires
        board::doc_wf(old(doc)@),
    ensures
        board::doc_wf(final(doc)@),
        match comment_edit_outcome(old(doc)@, card_id@, comment_id@, comment_edit_fn(edit)) {
            Err(g) => r matches Err(e) && e@ == g && final(doc)@ == old(doc)@,
            Ok(n) => r is Ok && final(doc)@ == n,
        },
{
    let i = match find_comments(doc, card_id) {
        Ok(i) => i,
        Err(e) => return Err(e),
    };
    let j = match &doc.cards[i].1.comments {
        Some(l) => find_comment(l, comment_id),
        None => None,
    };
    let j = match j {
        Some(j) => j,
        None => return Err(DocError::NotFound(comment_id.to_owned())),
    };
    let ghost d = doc@;
    let ghost f = comment_edit_fn(edit);
    let (k, mut card) = doc.cards.remove(i);
    let ghost old_card = card@;
    let mut list = match card.comments.take() {
        Some(l) => l,
        None => Vec::new(),
    };
    let ghost l0 = board::comments_view(list@);
    assert(l0 == d.cards[i as int].1.comments->0);
    proof {
        lemma_comment_index_bounds(l0, comment_id@);
    }
    let mut c = list.remove(j);
    assert(c@ == l0[j as int]);
    match edit {
        CommentEdit::Delete => {
            c.deleted = Some(Value::Boolean(true));
        },
        CommentEdit::Text(t, at) => {
            c.text = Some(Value::Str(t));
            c.edited_at = Some(Value::Str(at));
        },
        CommentEdit::Avatar(u) => {
            c.avatar_url = Some(Value::Str(u));
        },
        CommentEdit::MailId(m) => {
            c.mail_message_id = Some(Value::Str(m));
        },
    }
    assert(c@ == f(l0[j as int]));
    list.insert(j, c);
    card.comments = Some(list);
    doc.cards.insert(i, (k, card));
    proof {
        let nl = edited_comments(l0, comment_id@, f);
        assert(board::comments_view(list@) =~= nl);
        let nc = CardObjectView { comments: Some(nl), ..old_card };
        lemma_put_card_back(d, card_id@, i as int, nc);
        assert(doc@.cards =~= d.cards.update(i as int, (card_id@, nc)));
    }
    Ok(())
}

/// Marks the comment `comment_id` of card `card_id` deleted.
pub fn delete_comment(doc: &mut BoardDoc, card_id: &str, comment_id: &str) -> (r: Result<(), DocError>)
    requires
        board::doc_wf(old(doc)@),
    ensures
        board::doc_wf(final(doc)@),
        match comment_edit_outcome(old(doc)@, card_id@, comment_id@, delete_edit()) {
            Err(g) => r matches Err(e) && e@ == g && final(doc)@ == old(doc)@,
            Ok(n) => r is Ok && final(doc)@ == n,
        },
{
    apply_comment_edit(doc, card_id, comment_id, CommentEdit::Delete)
}

/// Replaces the text of the comment `comment_id`, recording `edited_at`.
pub fn edit_comment_at(
    doc: &mut BoardDoc,
    card_id: &str,
    comment_id: &str,
    new_text: &str,
    edited_at: String,
) -> (r: Result<(), DocError>)
    requires
        board::doc_wf(old(doc)@),
    ensures
        board::doc_wf(final(doc)@),
        match comment_edit_outcome(old(doc)@, card_id@, comment_id@, text_edit(new_text@, edited_at@)) {
            Err(g) => r matches Err(e) && e@ == g && final(doc)@ == old(doc)@,
            Ok(n) => r is Ok && final(doc)@ == n,
        },
{
    apply_comment_edit(doc, card_id, comment_id, CommentEdit::Text(new_text.to_owned(), edited_at))
}

/// Replaces the text of the comment `comment_id` of card `card_id`, stamping
/// it with the next timestamp of `clock` (taken only when the comment exists).
pub fn edit_comment(
    doc: &mut BoardDoc,
    clock: &mut HybridClock,
    card_id: &str,
    comment_id: &str,
    new_text: &str,
) -> (r: Result<(), DocError>)
    requires
        board::doc_wf(old(doc)@),
    ensures
        board::doc_wf(final(doc)@),
        match comment_found(old(doc)@, card_id@, comment_id@) {
            Err(g) => r matches Err(e) && e@ == g && final(doc)@ == old(doc)@ && final(clock).counter()
                == old(clock).counter(),
            Ok(_) => r is Ok && exists|w: u64|
                comment_edit_outcome(
                    old(doc)@,
                    card_id@,
                    comment_id@,
                    text_edit(new_text@, clock::hlc_text(w, old(clock).counter())),
                ) == Ok::<BoardDocView, DocErrorView>(final(doc)@),
        },
{
    let i = match find_comments(doc, card_id) {
        Ok(i) => i,
        Err(e) => return Err(e),
    };
    let j = match &doc.cards[i].1.comments {
        Some(l) => find_comment(l, comment_id),
        None => None,
    };
    if j.is_none() {
        return Err(DocError::NotFound(comment_id.to_owned()));
    }
    let hlc = clock::now(clock);
    let ghost w = choose|w: u64| hlc@ == clock::hlc_text(w, old(clock).counter());
    let r = edit_comment_at(doc, card_id, comment_id, new_text, hlc);
    assert(comment_edit_outcome(old(doc)@, card_id@, comment_id@, text_edit(new_text@, clock::hlc_text(w, old(clock).counter()))) == Ok::<BoardDocView, DocErrorView>(doc@));
    r
}

/// Sets the avatar URL shown with the comment `comment_id`.
pub fn set_comment_avatar_url(doc: &mut BoardDoc, card_id: &str, comment_id: &str, url: &str) -> (r: Result<(), DocError>)
    requires
        board::doc_wf(old(doc)@),
    ensures
        board::doc_wf(final(doc)@),
        match comment_edit_outcome(old(doc)@, card_id@, comment_id@, avatar_edit(url@)) {
            Err(g) => r matches Err(e) && e@ == g && final(doc)@ == old(doc)@,
            Ok(n) => r is Ok && final(doc)@ == n,
        },
{
    apply_comment_edit(doc, card_id, comment_id, CommentEdit::Avatar(url.to_owned()))
}

/// Records on the comment `comment_id` the id of the email it holds.
pub fn set_comment_mail_message_id(doc: &mut BoardDoc, card_id: &str, comment_id: &str, msg_id: &str) -> (r: Result<(), DocError>)
    requires
        board::doc_wf(old(doc)@),
    ensures
        board::doc_wf(final(doc)@),
        match comment_edit_outcome(old(doc)@, card_id@, comment_id@, mail_id_edit(msg_id@)) {
            Err(g) => r matches Err(e) && e@ == g && final(doc)@ == old(doc)@,
            Ok(n) => r is Ok && final(doc)@ == n,
        },
{
    apply_comment_edit(doc, card_id, comment_id, CommentEdit::MailId(msg_id.to_owned()))
}

/// Whether card `card_id` has a comment `comment_id`, or the error that
/// looking up its comments gives.
pub fn has_comment(doc: &BoardDoc, card_id: &str, comment_id: &str) -> (r: Result<bool, DocError>)
    requires
        board::doc_wf(doc@),
    ensures
        match comments_of(doc@, card_id@) {
            Err(g) => r matches Err(e) && e@ == g,
            Ok(l) => r == Ok::<bool, DocError>(comment_index(l, comment_id@) is Some),
        },
{
    let i = match find_comments(doc, card_id) {
        Ok(i) => i,
        Err(e) => return Err(e),
    };
    match &doc.cards[i].1.comments {
        Some(l) => Ok(find_comment(l, comment_id).is_some()),
        None => Ok(false),
    }
}

// ---------------------------------------------------------------------------
// Listing
// ---------------------------------------------------------------------------

/// A text entry that is not empty.
pub open spec fn nonempty_text(v: Option<ValueView>) -> Option<Seq<char>> {
    match board::as_text(v) {
        Some(s) => if s.len() > 0 {
            Some(s)
        } else {
            None
        },
        None => None,
    }
}

/// The comment that a comment object shows.
pub open spec fn comment_of(o: CommentObjectView) -> CommentView {
    CommentView {
        id: field::text_or_empty(o.id),
        author: field::text_or_empty(o.author),
        text: field::text_or_empty(o.text),
        created_at: field::text_or_empty(o.created_at),
        deleted: false,
        avatar_url: nonempty_text(o.avatar_url),
        image_b64: nonempty_text(o.image_b64),
        image_mime: nonempty_text(o.image_mime),
        image_name: nonempty_text(o.image_name),
    }
}

/// The comments that are not deleted, in order.
pub open spec fn listed_comments(l: Seq<CommentObjectView>) -> Seq<CommentView>
    decreases l.len(),
{
    if l.len() == 0 {
        Seq::empty()
    } else {
        let r = listed_comments(l.drop_last());
        if board::is_true(l.last().deleted) {
            r
        } else {
            r.push(comment_of(l.last()))
        }
    }
}

fn text_or_empty_exec(v: &Option<Value>) -> (r: String)
    ensures
        r@ == field::text_or_empty(board::opt_value_view(*v)),
{
    match board::text_of(v) {
        Some(s) => s,
        None => String::new(),
    }
}

fn nonempty_text_exec(v: &Option<Value>) -> (r: Option<String>)
    ensures
        field::opt_string_view(r) == nonempty_text(board::opt_value_view(*v)),
{
    match board::text_of(v) {
        Some(s) => if s.as_str().is_empty() {
            None
        } else {
            Some(s)
        },
        None => None,
    }
}

/// The comments of card `card_id` that are not deleted.
pub fn list_comments(doc: &BoardDoc, card_id: &str) -> (r: Result<Vec<Comment>, DocError>)
    requires
        board::doc_wf(doc@),
    ensures
        match comments_of(doc@, card_id@) {
            Err(g) => r matches Err(e) && e@ == g,
            Ok(l) => r matches Ok(v) && comment_views(v@) == listed_comments(l),
        },
{
    let i = match find_comments(doc, card_id) {
        Ok(i) => i,
        Err(e) => return Err(e),
    };
    let mut result: Vec<Comment> = Vec::new();
    match &doc.cards[i].1.comments {
        None => Ok(result),
        Some(l) => {
            let ghost lv = board::comments_view(l@);
            let mut j: usize = 0;
            assert(lv.take(0) =~= Seq::<CommentObjectView>::empty());
            assert(comment_views(result@) =~= Seq::<CommentView>::empty());
            while j < l.len()
                invariant
                    j <= l@.len(),
                    lv == board::comments_view(l@),
                    comment_views(result@) == listed_comments(lv.take(j as int)),
                decreases l@.len() - j,
            {
                assert(lv.take(j + 1).drop_last() =~= lv.take(j as int));
                assert(lv.take(j + 1).last() == l@[j as int]@);
                let o = &l[j];
                if !board::is_true_exec(&o.deleted) {
                    let c = Comment {
                        id: text_or_empty_exec(&o.id),
                        author: text_or_empty_exec(&o.author),
                        text: text_or_empty_exec(&o.text),
                        created_at: text_or_empty_exec(&o.created_at),
                        deleted: false,
                        avatar_url: nonempty_text_exec(&o.avatar_url),
                        image_b64: nonempty_text_exec(&o.image_b64),
                        image_mime: nonempty_text_exec(&o.image_mime),
                        image_name: nonempty_text_exec(&o.image_name),
                    };
                    result.push(c);
                    assert(comment_views(result@) =~= listed_comments(lv.take(j as int)).push(
                        comment_of(l@[j as int]@),
                    ));
                }
                j = j + 1;
            }
            assert(lv.take(j as int) =~= lv);
            Ok(result)
        },
    }
}

// ---------------------------------------------------------------------------
// Laws
// ---------------------------------------------------------------------------

/// A comment just added is listed last, with the id, author, text and
/// creation time it was added with.
pub proof fn law_added_comment_is_listed_last(
    l: Seq<CommentObjectView>,
    id: Seq<char>,
    author: Seq<char>,
    text: Seq<char>,
    created_at: Seq<char>,
    image_b64: Option<Seq<char>>,
    image_mime: Option<Seq<char>>,
    image_name: Option<Seq<char>>,
)
    ensures
        ({
            let o = new_comment_object(id, author, text, created_at, image_b64, image_mime, image_name);
            let listed = listed_comments(l.push(o));
            &&& listed == listed_comments(l).push(comment_of(o))
            &&& listed.last().id == id
            &&& listed.last().author == author
            &&& listed.last().text == text
            &&& listed.last().created_at == created_at
        }),
{
    let o = new_comment_object(id, author, text, created_at, image_b64, image_mime, image_name);
    assert(l.push(o).drop_last() =~= l);
}

/// Deleting a listed comment removes exactly one comment from the listing.
pub proof fn law_delete_unlists_one(l: Seq<CommentObjectView>, i: int)
    requires
        0 <= i < l.len(),
        !board::is_true(l[i].deleted),
    ensures
        listed_comments(l.update(i, delete_edit()(l[i]))).len() + 1 == listed_comments(l).len(),
    decreases l.len(),
{
    let u = l.update(i, delete_edit()(l[i]));
    if i == l.len() - 1 {
        assert(u.drop_last() =~= l.drop_last());
    } else {
        law_delete_unlists_one(l.drop_last(), i);
        assert(u.drop_last() =~= l.drop_last().update(i, delete_edit()(l[i])));
        assert(u.last() == l.last());
    }
}


/// A comment just added with image data lists with that same data: its
/// picture, its picture's type and its file name, each under its own name
/// (an empty or missing one lists as none).
pub proof fn law_added_comment_keeps_its_image(
    l: Seq<CommentObjectView>,
    id: Seq<char>,
    author: Seq<char>,
    text: Seq<char>,
    created_at: Seq<char>,
    image_b64: Option<Seq<char>>,
    image_mime: Option<Seq<char>>,
    image_name: Option<Seq<char>>,
)
    ensures
        ({
            let listed = listed_comments(l.push(new_comment_object(id, author, text, created_at, image_b64, image_mime, image_name)));
            &&& listed.last().image_b64 == (if image_b64 matches Some(b) && b.len() > 0 { image_b64 } else { None })
            &&& listed.last().image_mime == (if image_mime matches Some(m) && m.len() > 0 { image_mime } else { None })
            &&& listed.last().image_name == (if image_name matches Some(n) && n.len() > 0 { image_name } else { None })
        }),
{
    let o = new_comment_object(id, author, text, created_at, image_b64, image_mime, image_name);
    assert(l.push(o).drop_last() =~= l);
}

} // verus!
