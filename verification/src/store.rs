use vstd::prelude::*;
use crate::text::{
    char_units, lemma_line_bounds, lemma_lines_nonempty, lemma_lines_push, lemma_utf16_push,
    lemma_utf16_take_le, lines_of, u16_units, utf16_len, utf16_len_checked,
};

verus! {

/// A position as the protocol addresses it: zero-based line, zero-based
/// column in UTF-16 code units within that line.
#[derive(Debug, Clone, Copy, PartialEq, Eq, Structural)]
pub struct Position {
    pub line: u32,
    pub character: u32,
}

/// A half-open range `[start, end)` of document text.
#[derive(Debug, Clone, Copy, PartialEq, Eq, Structural)]
pub struct ChangeRange {
    pub start: Position,
    pub end: Position,
}

/// One entry of a change notification: replace `range` with `text`, or the
/// whole document when `range` is absent.
pub struct TextChange {
    pub range: Option<ChangeRange>,
    pub text: Vec<char>,
}

/// Why a store operation was refused. Nothing is ever clamped or applied
/// partially: a refused operation leaves every document as it was.
#[derive(Debug, Clone, Copy, PartialEq, Eq, Structural)]
pub enum StoreError {
    /// The document was never opened.
    NotFound,
    /// A change range does not address the document: a line or column past
    /// the end, a column inside a surrogate pair, or a start after its end.
    InvalidRange,
    /// The resulting text would leave the protocol's unsigned 32-bit
    /// coordinate space.
    TooLarge,
}

/// The line on which char offset `j` of `s` lies.
pub open spec fn line_at(s: Seq<char>, j: int) -> int {
    lines_of(s.take(j)).len() - 1
}

/// The UTF-16 column of char offset `j` of `s` within its line.
pub open spec fn col_at(s: Seq<char>, j: int) -> int {
    utf16_len(lines_of(s.take(j)).last()) as int
}

/// Char offset `j` is the place position `p` addresses.
pub open spec fn resolves(s: Seq<char>, p: Position, j: int) -> bool {
    0 <= j <= s.len() && line_at(s, j) == p.line as int && col_at(s, j) == p.character as int
}

/// Position `p` addresses a place in `s`: its line exists and its column
/// lands on a character boundary of that line (or its end).
pub open spec fn position_valid(s: Seq<char>, p: Position) -> bool {
    exists|j: int| resolves(s, p, j)
}

/// The char offset position `p` addresses.
pub open spec fn offset_of(s: Seq<char>, p: Position) -> int {
    choose|j: int| resolves(s, p, j)
}

/// Advancing one character moves the absolute position forward: a newline
/// starts the next line at column zero, anything else widens the column.
pub proof fn lemma_pos_step(s: Seq<char>, j: int)
    requires
        0 <= j < s.len(),
    ensures
        s[j] == '\n' ==> line_at(s, j + 1) == line_at(s, j) + 1 && col_at(s, j + 1) == 0,
        s[j] != '\n' ==> line_at(s, j + 1) == line_at(s, j) && col_at(s, j + 1) == col_at(s, j)
            + u16_units(s[j]),
{
    assert(s.take(j + 1) =~= s.take(j).push(s[j]));
    lemma_lines_push(s.take(j), s[j]);
    lemma_lines_nonempty(s.take(j));
    if s[j] == '\n' {
        assert(lines_of(s.take(j + 1)).last() =~= Seq::<char>::empty());
        assert(utf16_len(Seq::<char>::empty()) == 0);
    } else {
        let ls = lines_of(s.take(j));
        let lsu = ls.update(ls.len() - 1, ls.last().push(s[j]));
        assert(lines_of(s.take(j + 1)).last() == lsu[lsu.len() - 1]);
        assert(lsu[lsu.len() - 1] == ls.last().push(s[j]));
        lemma_utf16_push(ls.last(), s[j]);
    }
}

/// Absolute positions are strictly increasing in the char offset, in
/// lexicographic (line, column) order.
pub proof fn lemma_pos_mono(s: Seq<char>, j1: int, j2: int)
    requires
        0 <= j1 < j2 <= s.len(),
    ensures
        line_at(s, j1) < line_at(s, j2) || (line_at(s, j1) == line_at(s, j2) && col_at(s, j1)
            < col_at(s, j2)),
    decreases j2 - j1,
{
    lemma_pos_step(s, j2 - 1);
    if j1 < j2 - 1 {
        lemma_pos_mono(s, j1, j2 - 1);
    }
}

/// A position addresses at most one char offset.
pub proof fn lemma_resolve_unique(s: Seq<char>, p: Position, j1: int, j2: int)
    requires
        resolves(s, p, j1),
        resolves(s, p, j2),
    ensures
        j1 == j2,
{
    if j1 < j2 {
        lemma_pos_mono(s, j1, j2);
    }
    if j2 < j1 {
        lemma_pos_mono(s, j2, j1);
    }
}

/// Finds the char offset a position addresses, scanning the text while
/// tracking the absolute (line, column) of each offset.
pub fn resolve_position(text: &Vec<char>, p: Position) -> (r: Option<usize>)
    requires
        utf16_len(text@) <= u32::MAX as nat,
    ensures
        match r {
            Some(j) => resolves(text@, p, j as int),
            None => !position_valid(text@, p),
        },
{
    let mut j: usize = 0;
    let mut cur_line: u32 = 0;
    let mut cur_col: u32 = 0;
    proof {
        assert(text@.take(0) =~= Seq::<char>::empty());
        assert(lines_of(Seq::<char>::empty()) == seq![Seq::<char>::empty()]);
        assert(utf16_len(Seq::<char>::empty()) == 0);
    }
    while j < text.len()
        invariant
            utf16_len(text@) <= u32::MAX as nat,
            0 <= j <= text@.len(),
            cur_line as int == line_at(text@, j as int),
            cur_col as int == col_at(text@, j as int),
            forall|k: int| 0 <= k < j ==> !resolves(text@, p, k),
        decreases text@.len() - j,
    {
        if cur_line == p.line && cur_col == p.character {
            return Some(j);
        }
        let c = text[j];
        proof {
            lemma_pos_step(text@, j as int);
            lemma_line_bounds(text@.take(j + 1));
            lemma_utf16_take_le(text@, j + 1);
            assert(lines_of(text@.take(j + 1)).len() - 1 <= utf16_len(text@.take(j + 1)));
            assert(utf16_len(lines_of(text@.take(j + 1)).last()) <= utf16_len(text@.take(j + 1)));
        }
        if c == '\n' {
            cur_line = cur_line + 1;
            cur_col = 0;
        } else {
            cur_col = cur_col + char_units(c);
        }
        j = j + 1;
    }
    if cur_line == p.line && cur_col == p.character {
        return Some(j);
    }
    proof {
        assert forall|k: int| !resolves(text@, p, k) by {
            if 0 <= k < text@.len() {
            } else if k == text@.len() {
            }
        }
    }
    Option::None
}

/// The text with `[start, end)` replaced by `repl`.
pub fn splice(text: &Vec<char>, start: usize, end: usize, repl: &Vec<char>) -> (r: Vec<char>)
    requires
        start <= end <= text@.len(),
    ensures
        r@ == text@.take(start as int) + repl@ + text@.skip(end as int),
{
    let mut r: Vec<char> = Vec::new();
    let mut i: usize = 0;
    while i < start
        invariant
            0 <= i <= start <= text@.len(),
            r@ == text@.take(i as int),
        decreases start - i,
    {
        r.push(text[i]);
        proof {
            assert(text@.take(i + 1) =~= text@.take(i as int).push(text@[i as int]));
        }
        i = i + 1;
    }
    let mut k: usize = 0;
    while k < repl.len()
        invariant
            0 <= k <= repl@.len(),
            r@ == text@.take(start as int) + repl@.take(k as int),
        decreases repl@.len() - k,
    {
        r.push(repl[k]);
        proof {
            assert(repl@.take(k + 1) =~= repl@.take(k as int).push(repl@[k as int]));
            assert(text@.take(start as int) + repl@.take(k + 1) =~= (text@.take(start as int)
                + repl@.take(k as int)).push(repl@[k as int]));
        }
        k = k + 1;
    }
    let mut m: usize = end;
    while m < text.len()
        invariant
            end <= m <= text@.len(),
            r@ == text@.take(start as int) + repl@ + text@.skip(end as int).take(m - end),
        decreases text@.len() - m,
    {
        r.push(text[m]);
        proof {
            assert(text@.skip(end as int).take(m + 1 - end) =~= text@.skip(end as int).take(
                m - end,
            ).push(text@[m as int]));
            assert(text@.take(start as int) + repl@ + text@.skip(end as int).take(m + 1 - end)
                =~= (text@.take(start as int) + repl@ + text@.skip(end as int).take(m - end)).push(
                text@[m as int],
            ));
        }
        m = m + 1;
    }
    proof {
        assert(repl@.take(repl@.len() as int) =~= repl@);
        assert(text@.skip(end as int).take(text@.len() - end) =~= text@.skip(end as int));
    }
    r
}

/// What one change does to a text: the new text, or the error that refuses
/// it. A present range must address the document and start before its end;
/// the result must stay within the protocol's coordinate space.
pub open spec fn apply_change_result(s: Seq<char>, c: TextChange) -> Result<Seq<char>, StoreError> {
    match c.range {
        Option::None => {
            if utf16_len(c.text@) > u32::MAX as nat {
                Result::Err(StoreError::TooLarge)
            } else {
                Result::Ok(c.text@)
            }
        },
        Some(r) => {
            if !position_valid(s, r.start) || !position_valid(s, r.end) || offset_of(s, r.start)
                > offset_of(s, r.end) {
                Result::Err(StoreError::InvalidRange)
            } else {
                let t = s.take(offset_of(s, r.start)) + c.text@ + s.skip(offset_of(s, r.end));
                if utf16_len(t) > u32::MAX as nat {
                    Result::Err(StoreError::TooLarge)
                } else {
                    Result::Ok(t)
                }
            }
        },
    }
}

/// What a whole change list does, applied in the order given; the first
/// refused change decides the error.
pub open spec fn apply_changes_result(s: Seq<char>, cs: Seq<TextChange>) -> Result<
    Seq<char>,
    StoreError,
>
    decreases cs.len(),
{
    if cs.len() == 0 {
        Result::Ok(s)
    } else {
        match apply_change_result(s, cs[0]) {
            Result::Ok(t) => apply_changes_result(t, cs.drop_first()),
            Result::Err(e) => Result::Err(e),
        }
    }
}

/// Applies one change to an owned text.
fn apply_one(text: &Vec<char>, change: &TextChange) -> (r: Result<Vec<char>, StoreError>)
    requires
        utf16_len(text@) <= u32::MAX as nat,
    ensures
        match r {
            Result::Ok(t) => apply_change_result(text@, *change) == Result::<
                Seq<char>,
                StoreError,
            >::Ok(t@) && utf16_len(t@) <= u32::MAX as nat,
            Result::Err(e) => apply_change_result(text@, *change) == Result::<
                Seq<char>,
                StoreError,
            >::Err(e),
        },
{
    match &change.range {
        Option::None => {
            match utf16_len_checked(&change.text) {
                Option::None => Result::Err(StoreError::TooLarge),
                Some(_) => Result::Ok(copy_chars(&change.text)),
            }
        },
        Some(range) => {
            let start = resolve_position(text, range.start);
            let end = resolve_position(text, range.end);
            match (start, end) {
                (Some(js), Some(je)) => {
                    proof {
                        lemma_resolve_unique(
                            text@,
                            range.start,
                            js as int,
                            offset_of(text@, range.start),
                        );
                        lemma_resolve_unique(
                            text@,
                            range.end,
                            je as int,
                            offset_of(text@, range.end),
                        );
                    }
                    if js > je {
                        return Result::Err(StoreError::InvalidRange);
                    }
                    let spliced = splice(text, js, je, &change.text);
                    match utf16_len_checked(&spliced) {
                        Option::None => Result::Err(StoreError::TooLarge),
                        Some(_) => Result::Ok(spliced),
                    }
                },
                _ => Result::Err(StoreError::InvalidRange),
            }
        },
    }
}

/// An owned copy of a text.
fn copy_chars(v: &Vec<char>) -> (r: Vec<char>)
    ensures
        r@ == v@,
{
    let mut r: Vec<char> = Vec::new();
    let mut i: usize = 0;
    while i < v.len()
        invariant
            0 <= i <= v@.len(),
            r@ == v@.take(i as int),
        decreases v@.len() - i,
    {
        r.push(v[i]);
        proof {
            assert(v@.take(i + 1) =~= v@.take(i as int).push(v@[i as int]));
        }
        i = i + 1;
    }
    proof {
        assert(v@.take(v@.len() as int) =~= v@);
    }
    r
}

/// An owned copy of a key.
fn copy_bytes(v: &Vec<u8>) -> (r: Vec<u8>)
    ensures
        r@ == v@,
{
    let mut r: Vec<u8> = Vec::new();
    let mut i: usize = 0;
    while i < v.len()
        invariant
            0 <= i <= v@.len(),
            r@ == v@.take(i as int),
        decreases v@.len() - i,
    {
        r.push(v[i]);
        proof {
            assert(v@.take(i + 1) =~= v@.take(i as int).push(v@[i as int]));
        }
        i = i + 1;
    }
    proof {
        assert(v@.take(v@.len() as int) =~= v@);
    }
    r
}

/// Whether two keys are the same byte sequence.
fn bytes_eq(a: &Vec<u8>, b: &Vec<u8>) -> (r: bool)
    ensures
        r == (a@ == b@),
{
    if a.len() != b.len() {
        return false;
    }
    let mut i: usize = 0;
    while i < a.len()
        invariant
            a@.len() == b@.len(),
            0 <= i <= a@.len(),
            forall|k: int| 0 <= k < i ==> a@[k] == b@[k],
        decreases a@.len() - i,
    {
        if a[i] != b[i] {
            return false;
        }
        i = i + 1;
    }
    proof {
        assert(a@ =~= b@);
    }
    true
}

/// One open document: its identity and its current text.
pub struct Document {
    pub uri: Vec<u8>,
    pub text: Vec<char>,
}

/// The document store: the current text of every open document, keyed by
/// the document's identity.
pub struct Store {
    pub docs: Vec<Document>,
}

/// No two entries share a key.
pub open spec fn keys_unique(docs: Seq<Document>) -> bool {
    forall|i: int, j: int|
        0 <= i < j < docs.len() ==> (#[trigger] docs[i]).uri@ != (#[trigger] docs[j]).uri@
}

pub open spec fn store_has(docs: Seq<Document>, k: Seq<u8>) -> bool {
    exists|i: int| 0 <= i < docs.len() && (#[trigger] docs[i]).uri@ == k
}

pub open spec fn store_idx(docs: Seq<Document>, k: Seq<u8>) -> int {
    choose|i: int| 0 <= i < docs.len() && (#[trigger] docs[i]).uri@ == k
}

/// The store as a map from document identity to current text.
pub open spec fn store_view(docs: Seq<Document>) -> Map<Seq<u8>, Seq<char>> {
    Map::new(
        |k: Seq<u8>| store_has(docs, k),
        |k: Seq<u8>| docs[store_idx(docs, k)].text@,
    )
}

impl View for Store {
    type V = Map<Seq<u8>, Seq<char>>;

    open spec fn view(&self) -> Map<Seq<u8>, Seq<char>> {
        store_view(self.docs@)
    }
}

/// With unique keys, entry `i` is the one its own key finds.
pub proof fn lemma_store_at(docs: Seq<Document>, i: int)
    requires
        keys_unique(docs),
        0 <= i < docs.len(),
    ensures
        store_has(docs, docs[i].uri@),
        store_idx(docs, docs[i].uri@) == i,
{
    assert(store_has(docs, docs[i].uri@));
    let j = store_idx(docs, docs[i].uri@);
    assert(0 <= j < docs.len() && docs[j].uri@ == docs[i].uri@);
    if j < i {
        assert(docs[j].uri@ != docs[i].uri@);
    }
    if i < j {
        assert(docs[i].uri@ != docs[j].uri@);
    }
}

/// Replacing the entry at `i` by one with the same key updates exactly
/// that key's value in the map view.
pub proof fn lemma_view_update(d0: Seq<Document>, i: int, doc: Document)
    requires
        keys_unique(d0),
        0 <= i < d0.len(),
        doc.uri@ == d0[i].uri@,
    ensures
        keys_unique(d0.update(i, doc)),
        store_view(d0.update(i, doc)) == store_view(d0).insert(doc.uri@, doc.text@),
{
    let d1 = d0.update(i, doc);
    assert forall|a: int, b: int| 0 <= a < b < d1.len() implies (#[trigger] d1[a]).uri@
        != (#[trigger] d1[b]).uri@ by {
        assert(d0[a].uri@ != d0[b].uri@);
    }
    assert forall|k: Seq<u8>| store_has(d1, k) implies store_has(d0, k) by {
        let w = choose|w: int| 0 <= w < d1.len() && (#[trigger] d1[w]).uri@ == k;
        if w == i {
            assert(d0[i].uri@ == k);
        } else {
            assert(d0[w].uri@ == k);
        }
    }
    assert forall|k: Seq<u8>| store_has(d0, k) implies store_has(d1, k) by {
        let w = choose|w: int| 0 <= w < d0.len() && (#[trigger] d0[w]).uri@ == k;
        if w == i {
            assert(d1[i].uri@ == k);
        } else {
            assert(d1[w].uri@ == k);
        }
    }
    lemma_store_at(d1, i);
    assert forall|k: Seq<u8>| #[trigger] store_has(d1, k) && k != doc.uri@ implies store_view(
        d1,
    )[k] == store_view(d0)[k] by {
        let w = store_idx(d1, k);
        assert(0 <= w < d1.len() && d1[w].uri@ == k);
        assert(w != i);
        assert(d0[w].uri@ == k);
        lemma_store_at(d0, w);
    }
    assert(store_view(d1)[doc.uri@] == doc.text@);
    assert(store_view(d1) =~= store_view(d0).insert(doc.uri@, doc.text@));
}

/// Appending an entry with a fresh key adds exactly that key to the map
/// view.
pub proof fn lemma_view_push(d0: Seq<Document>, doc: Document)
    requires
        keys_unique(d0),
        !store_has(d0, doc.uri@),
    ensures
        keys_unique(d0.push(doc)),
        store_view(d0.push(doc)) == store_view(d0).insert(doc.uri@, doc.text@),
{
    let d1 = d0.push(doc);
    assert forall|a: int, b: int| 0 <= a < b < d1.len() implies (#[trigger] d1[a]).uri@
        != (#[trigger] d1[b]).uri@ by {
        if b < d0.len() {
            assert(d0[a].uri@ != d0[b].uri@);
        } else {
            assert(d1[b] == doc);
            assert(d1[a] == d0[a]);
            assert(store_has(d0, d0[a].uri@));
        }
    }
    assert forall|k: Seq<u8>| store_has(d1, k) && k != doc.uri@ implies store_has(d0, k) by {
        let w = choose|w: int| 0 <= w < d1.len() && (#[trigger] d1[w]).uri@ == k;
        if w < d0.len() {
            assert(d0[w].uri@ == k);
        }
    }
    assert forall|k: Seq<u8>| store_has(d0, k) implies store_has(d1, k) by {
        let w = choose|w: int| 0 <= w < d0.len() && (#[trigger] d0[w]).uri@ == k;
        assert(d1[w].uri@ == k);
    }
    assert(d1[d0.len() as int].uri@ == doc.uri@);
    assert(store_has(d1, doc.uri@));
    lemma_store_at(d1, d0.len() as int);
    assert forall|k: Seq<u8>| #[trigger] store_has(d1, k) && k != doc.uri@ implies store_view(
        d1,
    )[k] == store_view(d0)[k] by {
        let w = store_idx(d1, k);
        assert(0 <= w < d1.len() && d1[w].uri@ == k);
        assert(w != d0.len());
        assert(d0[w].uri@ == k);
        lemma_store_at(d0, w);
    }
    assert(store_view(d1)[doc.uri@] == doc.text@);
    assert(store_view(d1) =~= store_view(d0).insert(doc.uri@, doc.text@));
}

impl Store {
    /// Keys are unique and every stored text fits the protocol's
    /// coordinate space.
    pub open spec fn wf(self) -> bool {
        &&& keys_unique(self.docs@)
        &&& forall|i: int|
            0 <= i < self.docs@.len() ==> utf16_len((#[trigger] self.docs@[i]).text@)
                <= u32::MAX as nat
    }

    /// An empty store: no document is open.
    pub fn new() -> (r: Store)
        ensures
            r.wf(),
            r@ == Map::<Seq<u8>, Seq<char>>::empty(),
    {
        let s = Store { docs: Vec::new() };
        proof {
            assert(s@ =~= Map::<Seq<u8>, Seq<char>>::empty());
        }
        s
    }

    fn find(&self, uri: &Vec<u8>) -> (r: Option<usize>)
        ensures
            match r {
                Some(i) => i < self.docs@.len() && self.docs@[i as int].uri@ == uri@,
                Option::None => !store_has(self.docs@, uri@),
            },
    {
        let mut i: usize = 0;
        while i < self.docs.len()
            invariant
                0 <= i <= self.docs@.len(),
                forall|k: int| 0 <= k < i ==> (#[trigger] self.docs@[k]).uri@ != uri@,
            decreases self.docs@.len() - i,
        {
            if bytes_eq(&self.docs[i].uri, uri) {
                return Some(i);
            }
            i = i + 1;
        }
        proof {
            assert(!store_has(self.docs@, uri@));
        }
        Option::None
    }

    /// Opens (or re-opens) a document with the given full text.
    pub fn open(&mut self, uri: Vec<u8>, text: Vec<char>) -> (r: Result<(), StoreError>)
        requires
            old(self).wf(),
        ensures
            final(self).wf(),
            match r {
                Result::Ok(()) => utf16_len(text@) <= u32::MAX as nat && final(self)@ == old(
                    self,
                )@.insert(uri@, text@),
                Result::Err(e) => e == StoreError::TooLarge && utf16_len(text@) > u32::MAX as nat
                    && final(self)@ == old(self)@,
            },
    {
        match utf16_len_checked(&text) {
            Option::None => {
                return Result::Err(StoreError::TooLarge);
            },
            Some(_) => {},
        }
        match self.find(&uri) {
            Some(i) => {
                let doc = Document { uri, text };
                proof {
                    lemma_view_update(self.docs@, i as int, doc);
                }
                self.docs.set(i, doc);
            },
            Option::None => {
                let doc = Document { uri, text };
                proof {
                    lemma_view_push(self.docs@, doc);
                }
                self.docs.push(doc);
            },
        }
        Result::Ok(())
    }

    /// The current full text of an open document.
    pub fn current_text(&self, uri: &Vec<u8>) -> (r: Result<&Vec<char>, StoreError>)
        requires
            self.wf(),
        ensures
            match r {
                Result::Ok(t) => self@.contains_key(uri@) && t@ == self@[uri@] && utf16_len(t@)
                    <= u32::MAX as nat,
                Result::Err(e) => e == StoreError::NotFound && !self@.contains_key(uri@),
            },
    {
        match self.find(uri) {
            Some(i) => {
                proof {
                    lemma_store_at(self.docs@, i as int);
                }
                Result::Ok(&self.docs[i].text)
            },
            Option::None => Result::Err(StoreError::NotFound),
        }
    }

    /// Applies a change notification: every change in order, atomically.
    /// On any error the store is left exactly as it was.
    pub fn apply_changes(&mut self, uri: &Vec<u8>, changes: &Vec<TextChange>) -> (r: Result<
        (),
        StoreError,
    >)
        requires
            old(self).wf(),
        ensures
            final(self).wf(),
            match r {
                Result::Ok(()) => store_has(old(self).docs@, uri@) && apply_changes_result(
                    old(self)@[uri@],
                    changes@,
                ) == Result::<Seq<char>, StoreError>::Ok(final(self)@[uri@]) && final(self)@ == old(
                    self,
                )@.insert(uri@, final(self)@[uri@]),
                Result::Err(e) => final(self)@ == old(self)@ && (if !store_has(
                    old(self).docs@,
                    uri@,
                ) {
                    e == StoreError::NotFound
                } else {
                    apply_changes_result(old(self)@[uri@], changes@) == Result::<
                        Seq<char>,
                        StoreError,
                    >::Err(e)
                }),
            },
    {
        let idx = match self.find(uri) {
            Some(i) => i,
            Option::None => {
                return Result::Err(StoreError::NotFound);
            },
        };
        proof {
            lemma_store_at(self.docs@, idx as int);
        }
        let ghost orig = self.docs@[idx as int].text@;
        let mut cur = copy_chars(&self.docs[idx].text);
        let mut ci: usize = 0;
        proof {
            assert(changes@.skip(0) =~= changes@);
        }
        while ci < changes.len()
            invariant
                0 <= ci <= changes@.len(),
                utf16_len(cur@) <= u32::MAX as nat,
                self.docs@ == old(self).docs@,
                old(self).wf(),
                idx < self.docs@.len(),
                self.docs@[idx as int].uri@ == uri@,
                orig == self.docs@[idx as int].text@,
                store_has(old(self).docs@, uri@),
                old(self)@[uri@] == orig,
                apply_changes_result(orig, changes@) == apply_changes_result(
                    cur@,
                    changes@.skip(ci as int),
                ),
            decreases changes@.len() - ci,
        {
            let ghost tail = changes@.skip(ci as int);
            proof {
                assert(tail[0] == changes@[ci as int]);
                assert(tail.drop_first() =~= changes@.skip(ci + 1));
            }
            match apply_one(&cur, &changes[ci]) {
                Result::Ok(t) => {
                    cur = t;
                    ci = ci + 1;
                },
                Result::Err(e) => {
                    return Result::Err(e);
                },
            }
        }
        proof {
            assert(changes@.skip(changes@.len() as int) =~= Seq::<TextChange>::empty());
        }
        let key = copy_bytes(uri);
        let doc = Document { uri: key, text: cur };
        proof {
            assert(doc.uri@ == self.docs@[idx as int].uri@);
            lemma_view_update(self.docs@, idx as int, doc);
        }
        self.docs.set(idx, doc);
        proof {
            lemma_store_at(self.docs@, idx as int);
        }
        Result::Ok(())
    }
}

/// Round-trip law: a change whose replacement is exactly the text it
/// replaces (or a full replacement by the current text) is accepted and
/// leaves the text identical — so a token request after such a change
/// notification yields the same stream as one before it, the stream being
/// a function of the text.
pub proof fn lemma_noop_change(s: Seq<char>, c: TextChange)
    requires
        utf16_len(s) <= u32::MAX as nat,
        match c.range {
            Option::None => c.text@ == s,
            Some(r) => position_valid(s, r.start) && position_valid(s, r.end) && offset_of(
                s,
                r.start,
            ) <= offset_of(s, r.end) && c.text@ == s.subrange(
                offset_of(s, r.start),
                offset_of(s, r.end),
            ),
        },
    ensures
        apply_change_result(s, c) == Result::<Seq<char>, StoreError>::Ok(s),
{
    match c.range {
        Option::None => {},
        Some(r) => {
            let js = offset_of(s, r.start);
            let je = offset_of(s, r.end);
            assert(0 <= js <= s.len());
            assert(0 <= je <= s.len());
            assert(s.take(js) + c.text@ + s.skip(je) =~= s);
        },
    }
}

} // verus!
