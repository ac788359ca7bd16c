//! The n-gram store: a vocabulary of words and four tables of k-grams
//! (k = 2..5), each k-gram extending a (k-1)-gram (or a word, for k = 2)
//! by one suffix word.

use vstd::prelude::*;

verus! {

/// A vocabulary entry.
pub struct WordEntry {
    pub id: u64,
    pub text: String,
}

/// The mathematical value of a vocabulary entry.
pub ghost struct WordView {
    pub id: u64,
    pub text: Seq<char>,
}

impl View for WordEntry {
    type V = WordView;

    open spec fn view(&self) -> WordView {
        WordView { id: self.id, text: self.text@ }
    }
}

/// A k-gram entry: `prefix` names an entry of order k-1, `suffix` a word.
#[derive(Clone, Copy, Debug, PartialEq, Eq)]
pub struct GramEntry {
    pub id: u64,
    pub prefix: u64,
    pub suffix: u64,
}

/// What a store or a lookup in it can fail with.
#[derive(Clone, Copy, Debug, PartialEq, Eq, Structural)]
pub enum StoreError {
    /// A table's ids are not strictly ascending.
    UnorderedIds,
    /// An entry references an id that its target table does not hold.
    DanglingReference,
}

/// The character sequences of a vector of strings.
pub open spec fn texts(v: Seq<String>) -> Seq<Seq<char>> {
    v.map_values(|s: String| s@)
}

pub open spec fn words_ascending(ws: Seq<WordView>) -> bool {
    forall|i: int, j: int| 0 <= i < j < ws.len() ==> ws[i].id < ws[j].id
}

pub open spec fn grams_ascending(t: Seq<GramEntry>) -> bool {
    forall|i: int, j: int| 0 <= i < j < t.len() ==> t[i].id < t[j].id
}

/// `p` is a prefix of `s`.
pub open spec fn is_prefix(p: Seq<char>, s: Seq<char>) -> bool {
    p.len() <= s.len() && s.subrange(0, p.len() as int) == p
}

/// Entry text `t` extends the context `ctx` by a word that begins with `f`.
pub open spec fn entry_matches(t: Seq<Seq<char>>, ctx: Seq<Seq<char>>, f: Seq<char>) -> bool {
    &&& t.len() == ctx.len() + 1
    &&& t.subrange(0, ctx.len() as int) == ctx
    &&& is_prefix(f, t[ctx.len() as int])
}

/// The mathematical value of a store: the words, and the k-gram tables for
/// k = 2..5 at positions 0..3.
pub ghost struct StoreView {
    pub words: Seq<WordView>,
    pub grams: Seq<Seq<GramEntry>>,
}

impl StoreView {
    pub open spec fn well_formed(self) -> bool {
        &&& self.grams.len() == 4
        &&& words_ascending(self.words)
        &&& forall|k: int| 0 <= k < 4 ==> grams_ascending(#[trigger] self.grams[k])
    }

    /// Number of entries of order `k` (1..5).
    pub open spec fn table_len(self, k: nat) -> nat {
        if k <= 1 {
            self.words.len()
        } else {
            self.grams[k - 2].len()
        }
    }

    /// The text of the word with id `id`, if there is one.
    pub open spec fn word_text(self, id: u64) -> Option<Seq<char>> {
        if exists|i: int| 0 <= i < self.words.len() && self.words[i].id == id {
            let i = choose|i: int| 0 <= i < self.words.len() && self.words[i].id == id;
            Some(self.words[i].text)
        } else {
            None
        }
    }

    /// The word sequence of the entry of order `k` with id `id`, if the
    /// entry exists and its chain of references resolves.
    pub open spec fn text_of_id(self, k: nat, id: u64) -> Option<Seq<Seq<char>>>
        decreases k, 1nat,
    {
        if k <= 1 {
            match self.word_text(id) {
                Some(t) => Some(seq![t]),
                None => None,
            }
        } else {
            let t = self.grams[k - 2];
            if exists|i: int| 0 <= i < t.len() && t[i].id == id {
                let i = choose|i: int| 0 <= i < t.len() && t[i].id == id;
                self.gram_text(k, t[i])
            } else {
                None
            }
        }
    }

    /// The word sequence of the k-gram `g`: its prefix's words, then its suffix.
    pub open spec fn gram_text(self, k: nat, g: GramEntry) -> Option<Seq<Seq<char>>>
        decreases k, 0nat,
    {
        if k < 2 {
            None
        } else {
            match (self.text_of_id((k - 1) as nat, g.prefix), self.word_text(g.suffix)) {
                (Some(p), Some(s)) => Some(p.push(s)),
                _ => None,
            }
        }
    }

    /// The word sequence of the entry at index `i` of the table of order `k`.
    pub open spec fn entry_text(self, k: nat, i: int) -> Option<Seq<Seq<char>>> {
        if k <= 1 {
            Some(seq![self.words[i].text])
        } else {
            self.gram_text(k, self.grams[k - 2][i])
        }
    }

    /// Every entry of the table of order `k` resolves.
    pub open spec fn table_resolves(self, k: nat) -> bool {
        forall|i: int| 0 <= i < self.table_len(k) ==> (#[trigger] self.entry_text(k, i)) is Some
    }

    /// Last words of the first `n` entries of order `ctx.len() + 1` that
    /// extend `ctx` by a word beginning with `f`, in table order.
    pub open spec fn matches_upto(self, ctx: Seq<Seq<char>>, f: Seq<char>, n: nat) -> Seq<
        Seq<char>,
    >
        decreases n,
    {
        if n == 0 {
            Seq::empty()
        } else {
            let rest = self.matches_upto(ctx, f, (n - 1) as nat);
            match self.entry_text(ctx.len() + 1, n - 1) {
                Some(t) => if entry_matches(t, ctx, f) {
                    rest.push(t[ctx.len() as int])
                } else {
                    rest
                },
                None => rest,
            }
        }
    }

    /// The id of the entry at index `i` of the table of order `k`.
    pub open spec fn entry_id(self, k: nat, i: int) -> u64 {
        if k <= 1 {
            self.words[i].id
        } else {
            self.grams[k - 2][i].id
        }
    }

    /// Index `i` holds the first entry of order `ws.len()` whose words are `ws`.
    pub open spec fn is_first_exact(self, ws: Seq<Seq<char>>, i: int) -> bool {
        &&& 0 <= i < self.table_len(ws.len())
        &&& self.entry_text(ws.len(), i) == Some(ws)
        &&& forall|j: int| 0 <= j < i ==> (#[trigger] self.entry_text(ws.len(), j)) != Some(ws)
    }

    /// Words that complete `ctx` and begin with `f`, in ascending entry id.
    pub open spec fn matches(self, ctx: Seq<Seq<char>>, f: Seq<char>) -> Seq<Seq<char>> {
        self.matches_upto(ctx, f, self.table_len(ctx.len() + 1))
    }
}

/// A read-only n-gram store whose tables are ordered by ascending id.
pub struct NgramStore {
    words: Vec<WordEntry>,
    grams: Vec<Vec<GramEntry>>,
}

impl View for NgramStore {
    type V = StoreView;

    closed spec fn view(&self) -> StoreView {
        StoreView {
            words: self.words@.map_values(|w: WordEntry| w@),
            grams: self.grams@.map_values(|t: Vec<GramEntry>| t@),
        }
    }
}

fn words_in_order(ws: &Vec<WordEntry>) -> (r: bool)
    ensures
        r == words_ascending(ws@.map_values(|w: WordEntry| w@)),
{
    let ghost v = ws@.map_values(|w: WordEntry| w@);
    let mut i: usize = 1;
    while i < ws.len()
        invariant
            v == ws@.map_values(|w: WordEntry| w@),
            1 <= i <= ws.len() || ws.len() == 0,
            forall|a: int, b: int| 0 <= a < b < i && b < ws.len() ==> v[a].id < v[b].id,
        decreases ws.len() - i,
    {
        if ws[i - 1].id >= ws[i].id {
            assert(v[i - 1].id >= v[i as int].id);
            return false;
        }
        assert forall|a: int, b: int| 0 <= a < b < i + 1 implies v[a].id < v[b].id by {
            if b == i && a < i - 1 {
                assert(v[a].id < v[i - 1].id);
            }
        }
        i += 1;
    }
    true
}

fn grams_in_order(t: &Vec<GramEntry>) -> (r: bool)
    ensures
        r == grams_ascending(t@),
{
    let mut i: usize = 1;
    while i < t.len()
        invariant
            1 <= i <= t.len() || t.len() == 0,
            forall|a: int, b: int| 0 <= a < b < i && b < t.len() ==> t@[a].id < t@[b].id,
        decreases t.len() - i,
    {
        if t[i - 1].id >= t[i].id {
            return false;
        }
        assert forall|a: int, b: int| 0 <= a < b < i + 1 implies t@[a].id < t@[b].id by {
            if b == i && a < i - 1 {
                assert(t@[a].id < t@[i - 1].id);
            }
        }
        i += 1;
    }
    true
}

impl NgramStore {
    pub open spec fn wf(&self) -> bool {
        self@.well_formed()
    }

    /// Builds a store from its tables, each listed in ascending id order.
    pub fn new(
        words: Vec<WordEntry>,
        two: Vec<GramEntry>,
        three: Vec<GramEntry>,
        four: Vec<GramEntry>,
        five: Vec<GramEntry>,
    ) -> (r: Result<NgramStore, StoreError>)
        ensures
            match r {
                Ok(s) => s.wf() && s@.words == words@.map_values(|w: WordEntry| w@)
                    && s@.grams == seq![two@, three@, four@, five@],
                Err(e) => e == StoreError::UnorderedIds && !(words_ascending(
                    words@.map_values(|w: WordEntry| w@),
                ) && grams_ascending(two@) && grams_ascending(three@) && grams_ascending(four@)
                    && grams_ascending(five@)),
            },
    {
        if !(words_in_order(&words) && grams_in_order(&two) && grams_in_order(&three)
            && grams_in_order(&four) && grams_in_order(&five)) {
            return Err(StoreError::UnorderedIds);
        }
        let mut grams: Vec<Vec<GramEntry>> = Vec::new();
        grams.push(two);
        grams.push(three);
        grams.push(four);
        grams.push(five);
        let s = NgramStore { words, grams };
        assert(s@.grams =~= seq![two@, three@, four@, five@]);
        Ok(s)
    }
}

/// `f` is a prefix of `t`, compared character by character.
pub fn starts_with(t: &String, f: &String) -> (r: bool)
    ensures
        r == is_prefix(f@, t@),
{
    let n = f.as_str().unicode_len();
    if n > t.as_str().unicode_len() {
        return false;
    }
    let mut i: usize = 0;
    while i < n
        invariant
            n == f@.len(),
            n <= t@.len(),
            i <= n,
            forall|j: int| 0 <= j < i ==> t@[j] == f@[j],
        decreases n - i,
    {
        if t.as_str().get_char(i) != f.as_str().get_char(i) {
            assert(t@.subrange(0, n as int)[i as int] != f@[i as int]);
            return false;
        }
        i += 1;
    }
    assert(t@.subrange(0, n as int) =~= f@);
    true
}

/// The two vectors hold the same words.
fn same_words(a: &Vec<String>, b: &Vec<String>) -> (r: bool)
    ensures
        r == (texts(a@) == texts(b@)),
{
    if a.len() != b.len() {
        assert(texts(a@).len() != texts(b@).len());
        return false;
    }
    let mut i: usize = 0;
    while i < a.len()
        invariant
            a.len() == b.len(),
            i <= a.len(),
            forall|j: int| 0 <= j < i ==> a@[j]@ == b@[j]@,
        decreases a.len() - i,
    {
        if a[i] != b[i] {
            assert(texts(a@)[i as int] != texts(b@)[i as int]);
            return false;
        }
        i += 1;
    }
    assert(texts(a@) =~= texts(b@));
    true
}

/// The resolved words `t` extend `ctx` by a word that begins with `f`.
fn words_match(t: &Vec<String>, ctx: &Vec<String>, f: &String) -> (r: bool)
    requires
        t.len() == ctx.len() + 1,
    ensures
        r == entry_matches(texts(t@), texts(ctx@), f@),
{
    let n = ctx.len();
    let mut i: usize = 0;
    while i < n
        invariant
            n == ctx.len(),
            t.len() == n + 1,
            i <= n,
            forall|j: int| 0 <= j < i ==> t@[j]@ == ctx@[j]@,
        decreases n - i,
    {
        if t[i] != ctx[i] {
            assert(texts(t@).subrange(0, n as int)[i as int] != texts(ctx@)[i as int]);
            return false;
        }
        i += 1;
    }
    assert(texts(t@).subrange(0, n as int) =~= texts(ctx@));
    starts_with(&t[n], f)
}

impl NgramStore {
    /// Index of the word with id `id`, by binary search over ascending ids.
    fn find_word(&self, id: u64) -> (r: Option<usize>)
        requires
            self.wf(),
        ensures
            match r {
                Some(i) => i < self@.words.len() && self@.words[i as int].id == id
                    && self@.word_text(id) == Some(self@.words[i as int].text),
                None => self@.word_text(id) is None,
            },
    {
        let ghost v = self@.words;
        let mut lo: usize = 0;
        let mut hi: usize = self.words.len();
        while lo < hi
            invariant
                self.wf(),
                v == self@.words,
                v.len() == self.words@.len(),
                lo <= hi <= v.len(),
                forall|j: int| 0 <= j < lo ==> (#[trigger] v[j]).id < id,
                forall|j: int| hi <= j < v.len() ==> (#[trigger] v[j]).id > id,
            decreases hi - lo,
        {
            let mid = lo + (hi - lo) / 2;
            let m = self.words[mid].id;
            assert(v[mid as int].id == m);
            if m == id {
                assert forall|j: int| 0 <= j < v.len() && v[j].id == id implies j == mid by {
                    if j < mid {
                        assert(v[j].id < v[mid as int].id);
                    } else if j > mid {
                        assert(v[mid as int].id < v[j].id);
                    }
                }
                return Some(mid);
            } else if m < id {
                assert forall|j: int| 0 <= j < mid + 1 implies (#[trigger] v[j]).id < id by {
                    if j < mid {
                        assert(v[j].id < v[mid as int].id);
                    }
                }
                lo = mid + 1;
            } else {
                assert forall|j: int| mid <= j < v.len() implies (#[trigger] v[j]).id > id by {
                    if j > mid {
                        assert(v[mid as int].id < v[j].id);
                    }
                }
                hi = mid;
            }
        }
        None
    }

    /// Index of the entry with id `id` in the table of order `k` (2..5), by
    /// binary search over ascending ids.
    fn find_gram(&self, k: usize, id: u64) -> (r: Option<usize>)
        requires
            self.wf(),
            2 <= k <= 5,
        ensures
            match r {
                Some(i) => i < self@.grams[k - 2].len() && self@.grams[k - 2][i as int].id == id,
                None => forall|j: int|
                    0 <= j < self@.grams[k - 2].len() ==> (#[trigger] self@.grams[k - 2][j]).id != id,
            },
    {
        let t = &self.grams[k - 2];
        assert(t@ == self@.grams[k - 2]);
        let ghost v = t@;
        assert(grams_ascending(v));
        let mut lo: usize = 0;
        let mut hi: usize = t.len();
        while lo < hi
            invariant
                v == t@,
                v == self@.grams[k - 2],
                grams_ascending(v),
                lo <= hi <= v.len(),
                forall|j: int| 0 <= j < lo ==> (#[trigger] v[j]).id < id,
                forall|j: int| hi <= j < v.len() ==> (#[trigger] v[j]).id > id,
            decreases hi - lo,
        {
            let mid = lo + (hi - lo) / 2;
            let m = t[mid].id;
            if m == id {
                return Some(mid);
            } else if m < id {
                assert forall|j: int| 0 <= j < mid + 1 implies (#[trigger] v[j]).id < id by {
                    if j < mid {
                        assert(v[j].id < v[mid as int].id);
                    }
                }
                lo = mid + 1;
            } else {
                assert forall|j: int| mid <= j < v.len() implies (#[trigger] v[j]).id > id by {
                    if j > mid {
                        assert(v[mid as int].id < v[j].id);
                    }
                }
                hi = mid;
            }
        }
        None
    }

    /// The words of the entry of order `k` with id `id`.
    fn resolve_id(&self, k: usize, id: u64) -> (r: Result<Vec<String>, StoreError>)
        requires
            self.wf(),
            1 <= k <= 5,
        ensures
            match r {
                Ok(v) => self@.text_of_id(k as nat, id) == Some(texts(v@)) && v.len() == k,
                Err(e) => e == StoreError::DanglingReference && self@.text_of_id(k as nat, id) is None,
            },
        decreases k, 1nat,
    {
        if k == 1 {
            match self.find_word(id) {
                Some(i) => {
                    let mut v: Vec<String> = Vec::new();
                    v.push(self.words[i].text.clone());
                    assert(texts(v@) =~= seq![self@.words[i as int].text]);
                    Ok(v)
                },
                None => Err(StoreError::DanglingReference),
            }
        } else {
            match self.find_gram(k, id) {
                Some(i) => {
                    let g = self.grams[k - 2][i];
                    proof {
                        let t = self@.grams[k - 2];
                        assert(t[i as int] == g);
                        assert forall|j: int| 0 <= j < t.len() && t[j].id == id implies j == i by {
                            if j < i {
                                assert(t[j].id < t[i as int].id);
                            } else if j > i {
                                assert(t[i as int].id < t[j].id);
                            }
                        }
                    }
                    self.resolve_gram(k, g)
                },
                None => Err(StoreError::DanglingReference),
            }
        }
    }

    /// The words of the k-gram `g`.
    fn resolve_gram(&self, k: usize, g: GramEntry) -> (r: Result<Vec<String>, StoreError>)
        requires
            self.wf(),
            2 <= k <= 5,
        ensures
            match r {
                Ok(v) => self@.gram_text(k as nat, g) == Some(texts(v@)) && v.len() == k,
                Err(e) => e == StoreError::DanglingReference && self@.gram_text(k as nat, g) is None,
            },
        decreases k, 0nat,
    {
        let p = self.resolve_id(k - 1, g.prefix);
        match p {
            Ok(mut v) => match self.find_word(g.suffix) {
                Some(i) => {
                    let ghost before = v@;
                    v.push(self.words[i].text.clone());
                    assert(texts(v@) =~= texts(before).push(self@.words[i as int].text));
                    Ok(v)
                },
                None => Err(StoreError::DanglingReference),
            },
            Err(e) => Err(e),
        }
    }

    /// The words of the entry at index `i` of the table of order `k`.
    fn resolve_entry(&self, k: usize, i: usize) -> (r: Result<Vec<String>, StoreError>)
        requires
            self.wf(),
            1 <= k <= 5,
            i < self@.table_len(k as nat),
        ensures
            match r {
                Ok(v) => self@.entry_text(k as nat, i as int) == Some(texts(v@)) && v.len() == k,
                Err(e) => e == StoreError::DanglingReference && self@.entry_text(k as nat, i as int) is None,
            },
    {
        if k == 1 {
            let mut v: Vec<String> = Vec::new();
            v.push(self.words[i].text.clone());
            assert(texts(v@) =~= seq![self@.words[i as int].text]);
            Ok(v)
        } else {
            assert(self.grams@[k - 2]@ == self@.grams[k - 2]);
            self.resolve_gram(k, self.grams[k - 2][i])
        }
    }

    /// Number of entries of order `k`.
    fn table_size(&self, k: usize) -> (r: usize)
        requires
            self.wf(),
            1 <= k <= 5,
        ensures
            r == self@.table_len(k as nat),
    {
        if k == 1 {
            self.words.len()
        } else {
            assert(self.grams@[k - 2]@ == self@.grams[k - 2]);
            self.grams[k - 2].len()
        }
    }

    /// Words that follow the exact words of `ctx` (0 to 4 of them) and
    /// begin with `fragment`, in ascending entry id of order `ctx.len() + 1`.
    /// Fails when an entry of that order does not resolve.
    pub fn match_prefix(&self, ctx: &Vec<String>, fragment: &String) -> (r: Result<
        Vec<String>,
        StoreError,
    >)
        requires
            self.wf(),
            ctx.len() <= 4,
        ensures
            match r {
                Ok(v) => self@.table_resolves((ctx.len() + 1) as nat) && texts(v@) == self@.matches(
                    texts(ctx@),
                    fragment@,
                ),
                Err(e) => e == StoreError::DanglingReference && !self@.table_resolves(
                    (ctx.len() + 1) as nat,
                ),
            },
    {
        let k = ctx.len() + 1;
        let n = self.table_size(k);
        let ghost c = texts(ctx@);
        let mut out: Vec<String> = Vec::new();
        let mut i: usize = 0;
        while i < n
            invariant
                self.wf(),
                k == ctx.len() + 1,
                k <= 5,
                c == texts(ctx@),
                c.len() == ctx.len(),
                n == self@.table_len(k as nat),
                i <= n,
                forall|j: int| 0 <= j < i ==> (#[trigger] self@.entry_text(k as nat, j)) is Some,
                texts(out@) == self@.matches_upto(c, fragment@, i as nat),
            decreases n - i,
        {
            match self.resolve_entry(k, i) {
                Ok(t) => {
                    let ghost tv = texts(t@);
                    if words_match(&t, ctx, fragment) {
                        let ghost before = out@;
                        out.push(t[k - 1].clone());
                        assert(texts(out@) =~= texts(before).push(tv[ctx.len() as int]));
                    }
                },
                Err(e) => {
                    return Err(e);
                },
            }
            i += 1;
        }
        Ok(out)
    }

    /// The id of the first entry (in ascending id) of order `ws.len()` whose
    /// words are exactly `ws`, or `None` when there is none. Fails when an
    /// entry met before it does not resolve.
    pub fn resolve_exact(&self, ws: &Vec<String>) -> (r: Result<Option<u64>, StoreError>)
        requires
            self.wf(),
            1 <= ws.len() <= 5,
        ensures
            match r {
                Ok(Some(id)) => exists|i: int|
                    self@.is_first_exact(texts(ws@), i) && id == #[trigger] self@.entry_id(
                        ws.len() as nat,
                        i,
                    ),
                Ok(None) => self@.table_resolves(ws.len() as nat) && forall|i: int|
                    0 <= i < self@.table_len(ws.len() as nat) ==> (#[trigger] self@.entry_text(
                        ws.len() as nat,
                        i,
                    )) != Some(texts(ws@)),
                Err(e) => e == StoreError::DanglingReference && !self@.table_resolves(
                    ws.len() as nat,
                ),
            },
    {
        let k = ws.len();
        let n = self.table_size(k);
        let ghost w = texts(ws@);
        assert(w.len() == k);
        let mut i: usize = 0;
        while i < n
            invariant
                self.wf(),
                k == ws.len(),
                1 <= k <= 5,
                w == texts(ws@),
                w.len() == k,
                n == self@.table_len(k as nat),
                i <= n,
                forall|j: int| 0 <= j < i ==> (#[trigger] self@.entry_text(k as nat, j)) is Some,
                forall|j: int| 0 <= j < i ==> (#[trigger] self@.entry_text(k as nat, j)) != Some(w),
            decreases n - i,
        {
            match self.resolve_entry(k, i) {
                Ok(t) => {
                    if same_words(&t, ws) {
                        let id = if k == 1 {
                            self.words[i].id
                        } else {
                            assert(self.grams@[k - 2]@ == self@.grams[k - 2]);
                            self.grams[k - 2][i].id
                        };
                        assert(self@.is_first_exact(w, i as int));
                        assert(id == self@.entry_id(k as nat, i as int));
                        return Ok(Some(id));
                    }
                },
                Err(e) => {
                    return Err(e);
                },
            }
            i += 1;
        }
        Ok(None)
    }

    /// Words that follow the exact words of `ctx` (1 to 4 of them), in
    /// ascending entry id of order `ctx.len() + 1`.
    pub fn match_next(&self, ctx: &Vec<String>) -> (r: Result<Vec<String>, StoreError>)
        requires
            self.wf(),
            1 <= ctx.len() <= 4,
        ensures
            match r {
                Ok(v) => self@.table_resolves((ctx.len() + 1) as nat) && texts(v@) == self@.matches(
                    texts(ctx@),
                    Seq::empty(),
                ),
                Err(e) => e == StoreError::DanglingReference && !self@.table_resolves(
                    (ctx.len() + 1) as nat,
                ),
            },
    {
        let empty = String::new();
        self.match_prefix(ctx, &empty)
    }
}

} // verus!
