//! The completion trigger policy, the filtering and ordering of completion
//! responses, and the completion list selection state.
use vstd::prelude::*;

use crate::position::Encoding;
use vstd::string::StrSliceExecFns;

verus! {

broadcast use {vstd::seq_lib::group_to_multiset_ensures, vstd::multiset::group_multiset_axioms};

/// What one character is in Unicode's classification of letters and digits.
/// Relied on below through `char::is_alphanumeric`, whose result depends on
/// the character alone.
pub uninterp spec fn alnum(c: char) -> bool;

/// Relies on char::is_alphanumeric: true exactly for Unicode letters and
/// digits; the result depends on the character alone.
#[verifier::external_body]
fn char_is_alphanumeric(c: char) -> (r: bool)
    ensures
        r == alnum(c),
{
    c.is_alphanumeric()
}

/// A word character: part of the prefix word under the cursor.
pub open spec fn spec_word_char(c: char) -> bool {
    alnum(c) || c == '_'
}

fn word_char(c: char) -> (r: bool)
    ensures
        r == spec_word_char(c),
{
    char_is_alphanumeric(c) || c == '_'
}

/// Length of the contiguous word-character run ending just before `col`.
pub open spec fn spec_prefix_len(line: Seq<char>, col: int) -> int
    decreases col,
{
    if col <= 0 {
        0
    } else if spec_word_char(line[col - 1]) {
        1 + spec_prefix_len(line, col - 1)
    } else {
        0
    }
}

/// Whether the character is one of the declared trigger characters, each
/// declared as a one-character string.
pub open spec fn spec_is_trigger(triggers: Seq<String>, c: char) -> bool {
    exists|i: int| 0 <= i < triggers.len() && (#[trigger] triggers[i])@ == seq![c]
}

fn is_trigger_char(triggers: &Vec<String>, c: char) -> (r: bool)
    ensures
        r == spec_is_trigger(triggers@, c),
{
    let n = triggers.len();
    let mut i: usize = 0;
    while i < n
        invariant
            0 <= i <= n == triggers@.len(),
            forall|j: int| 0 <= j < i ==> (#[trigger] triggers@[j])@ != seq![c],
        decreases n - i,
    {
        let t = &triggers[i];
        if t.unicode_len() == 1 {
            if t.get_char(0) == c {
                proof {
                    assert(t@ =~= seq![c]);
                }
                return true;
            }
        }
        proof {
            if triggers@[i as int]@ == seq![c] {
                assert(triggers@[i as int]@[0] == c);
            }
        }
        i = i + 1;
    }
    false
}

/// What a keystroke leads to: nothing changed; the completion list is
/// cleared; or one completion request is issued, carrying the prefix word
/// under the cursor.
pub enum CompletionAction {
    Idle,
    Suppressed,
    Pending { prefix: Vec<char>, is_trigger: bool },
}

/// Whether a request is warranted: the character before the cursor is a word
/// character or a declared trigger character, and either it is a trigger
/// character or the prefix word has at least two characters.
pub open spec fn spec_should_request(line: Seq<char>, col: int, triggers: Seq<String>) -> bool {
    &&& col > 0
    &&& (spec_word_char(line[col - 1]) || spec_is_trigger(triggers, line[col - 1]))
    &&& (spec_is_trigger(triggers, line[col - 1]) || spec_prefix_len(line, col) >= 2)
}

/// The completion trigger policy, judged after each keystroke against the
/// line the cursor lands on. With nothing edited or moved the policy stays
/// idle; otherwise it either suppresses the completion list or issues one
/// request with the prefix word ending at the cursor.
pub fn completion_action(line: &Vec<char>, col: usize, triggers: &Vec<String>, changed: bool) -> (r:
    CompletionAction)
    requires
        col <= line@.len(),
    ensures
        r is Idle <==> !changed,
        changed ==> (r is Pending <==> spec_should_request(line@, col as int, triggers@)),
        r matches CompletionAction::Pending { prefix, is_trigger } ==> {
            let plen = spec_prefix_len(line@, col as int);
            &&& prefix@ == line@.subrange(col - plen, col as int)
            &&& is_trigger == spec_is_trigger(triggers@, line@[col - 1])
        },
{
    if !changed {
        return CompletionAction::Idle;
    }
    if col == 0 {
        return CompletionAction::Suppressed;
    }
    let prev = line[col - 1];
    let trig = is_trigger_char(triggers, prev);
    if !word_char(prev) && !trig {
        return CompletionAction::Suppressed;
    }
    let mut plen: usize = 0;
    while plen < col && word_char(line[col - 1 - plen])
        invariant
            0 <= plen <= col <= line@.len(),
            spec_prefix_len(line@, col as int) == plen + spec_prefix_len(
                line@,
                col - plen,
            ),
        decreases col - plen,
    {
        plen = plen + 1;
    }
    proof {
        assert(spec_prefix_len(line@, col - plen) == 0);
        assert(spec_prefix_len(line@, col as int) == plen);
    }
    if !trig && plen < 2 {
        return CompletionAction::Suppressed;
    }
    let mut prefix: Vec<char> = Vec::new();
    let mut k: usize = col - plen;
    while k < col
        invariant
            plen <= col,
            col - plen <= k <= col <= line@.len(),
            prefix@ =~= line@.subrange(col - plen, k as int),
        decreases col - k,
    {
        prefix.push(line[k]);
        proof {
            let a = col - plen;
            let s1 = line@.subrange(a as int, k + 1);
            let s2 = line@.subrange(a as int, k as int).push(line@[k as int]);
            assert(s1.len() == s2.len());
            assert forall|j: int| 0 <= j < s1.len() implies s1[j] == s2[j] by {
                assert(s1[j] == line@[a + j]);
                if j < k - a {
                    assert(s2[j] == line@[a + j]);
                } else {
                    assert(s2[j] == line@[k as int]);
                }
            }
            assert(s1 =~= s2);
        }
        k = k + 1;
    }
    proof {
        assert(prefix@ =~= line@.subrange(col - plen, col as int));
    }
    CompletionAction::Pending { prefix, is_trigger: trig }
}

/// One completion candidate as the remote side sent it: its label, the text
/// it filters by where one was given, and its server-provided sort key.
pub struct CompletionItem {
    pub label: String,
    pub filter_text: Option<String>,
    pub sort_text: Option<String>,
}

/// The text a candidate is filtered by: its filter text, falling back to its
/// label.
pub open spec fn spec_filter_key(item: CompletionItem) -> Seq<char> {
    match item.filter_text {
        Some(f) => f@,
        None => item.label@,
    }
}

/// The candidates whose filter text starts with the prefix, in arrival order.
pub open spec fn spec_kept(items: Seq<CompletionItem>, prefix: Seq<char>) -> Seq<CompletionItem>
    decreases items.len(),
{
    if items.len() == 0 {
        Seq::empty()
    } else {
        let rest = spec_kept(items.drop_first(), prefix);
        if prefix.is_prefix_of(spec_filter_key(items[0])) {
            seq![items[0]] + rest
        } else {
            rest
        }
    }
}

/// Lexicographic order on character sequences; agrees with the byte order of
/// their encoded forms.
pub open spec fn spec_lex_le(a: Seq<char>, b: Seq<char>) -> bool
    decreases a.len(),
{
    if a.len() == 0 {
        true
    } else if b.len() == 0 {
        false
    } else if a[0] != b[0] {
        a[0] < b[0]
    } else {
        spec_lex_le(a.drop_first(), b.drop_first())
    }
}

/// The server-provided sort order: by sort key, an absent key first.
pub open spec fn spec_key_le(a: CompletionItem, b: CompletionItem) -> bool {
    match (a.sort_text, b.sort_text) {
        (None, _) => true,
        (Some(_), None) => false,
        (Some(x), Some(y)) => spec_lex_le(x@, y@),
    }
}

pub open spec fn spec_sorted_by_key(items: Seq<CompletionItem>) -> bool {
    forall|i: int, j: int| 0 <= i < j < items.len() ==> spec_key_le(items[i], items[j])
}

fn lex_le(a: &String, b: &String) -> (r: bool)
    ensures
        r == spec_lex_le(a@, b@),
{
    let an = a.as_str().unicode_len();
    let bn = b.as_str().unicode_len();
    let mut i: usize = 0;
    proof {
        assert(a@.skip(0) =~= a@);
        assert(b@.skip(0) =~= b@);
    }
    loop
        invariant
            0 <= i <= an == a@.len(),
            i <= bn == b@.len(),
            spec_lex_le(a@, b@) == spec_lex_le(a@.skip(i as int), b@.skip(i as int)),
        decreases an - i,
    {
        if i == an {
            proof {
                assert(a@.skip(i as int).len() == 0);
            }
            return true;
        }
        if i == bn {
            proof {
                assert(b@.skip(i as int).len() == 0);
                assert(a@.skip(i as int).len() > 0);
            }
            return false;
        }
        let ca = a.as_str().get_char(i);
        let cb = b.as_str().get_char(i);
        proof {
            assert(a@.skip(i as int)[0] == a@[i as int]);
            assert(b@.skip(i as int)[0] == b@[i as int]);
            assert(a@.skip(i as int).drop_first() =~= a@.skip(i + 1));
            assert(b@.skip(i as int).drop_first() =~= b@.skip(i + 1));
        }
        if ca != cb {
            return ca < cb;
        }
        i = i + 1;
    }
}

fn key_le(a: &CompletionItem, b: &CompletionItem) -> (r: bool)
    ensures
        r == spec_key_le(*a, *b),
{
    match (&a.sort_text, &b.sort_text) {
        (None, _) => true,
        (Some(_), None) => false,
        (Some(x), Some(y)) => lex_le(x, y),
    }
}

/// The order is total: any two candidates compare one way or the other.
pub proof fn lemma_key_le_total(a: CompletionItem, b: CompletionItem)
    ensures
        spec_key_le(a, b) || spec_key_le(b, a),
{
    match (a.sort_text, b.sort_text) {
        (Some(x), Some(y)) => {
            lemma_lex_le_total(x@, y@);
        },
        _ => {},
    }
}

proof fn lemma_lex_le_total(a: Seq<char>, b: Seq<char>)
    ensures
        spec_lex_le(a, b) || spec_lex_le(b, a),
    decreases a.len(),
{
    if a.len() > 0 && b.len() > 0 {
        if a[0] == b[0] {
            lemma_lex_le_total(a.drop_first(), b.drop_first());
        }
    }
}

/// Keep the candidates whose filter text (falling back to label) starts with
/// the tracked prefix, in arrival order.
pub fn filter_by_prefix(items: Vec<CompletionItem>, prefix: &Vec<char>) -> (r: Vec<CompletionItem>)
    ensures
        r@ == spec_kept(items@, prefix@),
{
    let mut r: Vec<CompletionItem> = Vec::new();
    let n = items.len();
    let mut rest = items;
    let mut i: usize = 0;
    proof {
        assert(rest@.take(0) =~= Seq::<CompletionItem>::empty());
    }
    let ghost all = rest@;
    while i < n
        invariant
            0 <= i <= n == all.len(),
            rest@ == all,
            r@ =~= spec_kept(all.take(i as int), prefix@),
        decreases n - i,
    {
        proof {
            lemma_kept_push(all.take(i as int), all[i as int], prefix@);
            assert(all.take(i as int).push(all[i as int]) =~= all.take(i + 1));
        }
        let keep = {
            let item = &rest[i];
            let key: &String = match &item.filter_text {
                Some(f) => f,
                None => &item.label,
            };
            starts_with(key, prefix)
        };
        if keep {
            let item = clone_item(&rest[i]);
            proof {
                assert(item == all[i as int]);
            }
            r.push(item);
        }
        i = i + 1;
    }
    proof {
        assert(all.take(n as int) =~= all);
    }
    r
}

/// A faithful copy of one candidate.
fn clone_item(item: &CompletionItem) -> (r: CompletionItem)
    ensures
        r == *item,
{
    CompletionItem {
        label: item.label.clone(),
        filter_text: match &item.filter_text {
            Some(f) => Some(f.clone()),
            None => None,
        },
        sort_text: match &item.sort_text {
            Some(s) => Some(s.clone()),
            None => None,
        },
    }
}

/// Whether the string starts with the prefix.
fn starts_with(s: &String, prefix: &Vec<char>) -> (r: bool)
    ensures
        r == prefix@.is_prefix_of(s@),
{
    let n = prefix.len();
    if n > s.as_str().unicode_len() {
        proof {
            assert(!prefix@.is_prefix_of(s@));
        }
        return false;
    }
    let mut i: usize = 0;
    while i < n
        invariant
            0 <= i <= n == prefix@.len() <= s@.len(),
            forall|j: int| 0 <= j < i ==> prefix@[j] == s@[j],
        decreases n - i,
    {
        if s.as_str().get_char(i) != prefix[i] {
            proof {
                assert(!prefix@.is_prefix_of(s@));
            }
            return false;
        }
        i = i + 1;
    }
    proof {
        assert(prefix@ =~= s@.subrange(0, n as int));
    }
    true
}

proof fn lemma_kept_push(items: Seq<CompletionItem>, item: CompletionItem, prefix: Seq<char>)
    ensures
        prefix.is_prefix_of(spec_filter_key(item)) ==> spec_kept(items.push(item), prefix)
            =~= spec_kept(items, prefix).push(item),
        !prefix.is_prefix_of(spec_filter_key(item)) ==> spec_kept(items.push(item), prefix)
            =~= spec_kept(items, prefix),
    decreases items.len(),
{
    let p = items.push(item);
    if items.len() == 0 {
        assert(p.len() == 1);
        assert(p[0] == item);
        assert(p.drop_first() =~= Seq::<CompletionItem>::empty());
        assert(spec_kept(p.drop_first(), prefix) =~= Seq::<CompletionItem>::empty());
        if prefix.is_prefix_of(spec_filter_key(item)) {
            assert(spec_kept(p, prefix) == seq![item] + spec_kept(p.drop_first(), prefix));
            assert(spec_kept(p, prefix) =~= spec_kept(items, prefix).push(item));
        } else {
            assert(spec_kept(p, prefix) == spec_kept(p.drop_first(), prefix));
        }
    } else {
        assert(p[0] == items[0]);
        assert(p.drop_first() =~= items.drop_first().push(item));
        lemma_kept_push(items.drop_first(), item, prefix);
        let rest = spec_kept(items.drop_first(), prefix);
        if prefix.is_prefix_of(spec_filter_key(items[0])) {
            assert(spec_kept(p, prefix) == seq![items[0]] + spec_kept(p.drop_first(), prefix));
            assert(spec_kept(items, prefix) == seq![items[0]] + rest);
            if prefix.is_prefix_of(spec_filter_key(item)) {
                assert(spec_kept(p, prefix) =~= spec_kept(items, prefix).push(item));
            }
        } else {
            assert(spec_kept(p, prefix) == spec_kept(p.drop_first(), prefix));
            assert(spec_kept(items, prefix) == rest);
            if prefix.is_prefix_of(spec_filter_key(item)) {
                assert(spec_kept(p, prefix) =~= spec_kept(items, prefix).push(item));
            }
        }
    }
}

/// One candidate slotted into an ordered list, after every candidate whose
/// key is less than or equal: equal sort keys keep arrival order.
pub open spec fn spec_sorted_insert(s: Seq<CompletionItem>, item: CompletionItem) -> Seq<
    CompletionItem,
>
    decreases s.len(),
{
    if s.len() == 0 {
        seq![item]
    } else if spec_key_le(s[0], item) {
        seq![s[0]] + spec_sorted_insert(s.drop_first(), item)
    } else {
        seq![item] + s
    }
}

/// The candidates ordered by their server-provided sort key, candidates with
/// equal keys keeping their arrival order: a stable sort.
pub open spec fn spec_sort_by_key(items: Seq<CompletionItem>) -> Seq<CompletionItem>
    decreases items.len(),
{
    if items.len() == 0 {
        Seq::empty()
    } else {
        spec_sorted_insert(spec_sort_by_key(items.drop_last()), items.last())
    }
}

/// Scanning past every leading less-or-equal key finds the slot
/// `spec_sorted_insert` fills.
proof fn lemma_sorted_insert_at(s: Seq<CompletionItem>, item: CompletionItem, p: int)
    requires
        0 <= p <= s.len(),
        forall|j: int| 0 <= j < p ==> spec_key_le(#[trigger] s[j], item),
        p < s.len() ==> !spec_key_le(s[p], item),
    ensures
        spec_sorted_insert(s, item) =~= s.take(p) + seq![item] + s.skip(p),
    decreases s.len(),
{
    if p == 0 {
        if s.len() > 0 {
            assert(!spec_key_le(s[0], item));
        }
        assert(s.take(0) =~= Seq::<CompletionItem>::empty());
        assert(s.skip(0) =~= s);
    } else {
        assert(spec_key_le(s[0], item));
        lemma_sorted_insert_at(s.drop_first(), item, p - 1);
        assert(s.drop_first().take(p - 1) =~= s.take(p).drop_first());
        assert(s.drop_first().skip(p - 1) =~= s.skip(p));
        assert(seq![s[0]] + (s.drop_first().take(p - 1) + seq![item] + s.drop_first().skip(
            p - 1,
        )) =~= s.take(p) + seq![item] + s.skip(p));
    }
}

/// Order the kept candidates by their server-provided sort key; candidates
/// with equal keys keep their arrival order.
pub fn sort_by_key(items: Vec<CompletionItem>) -> (r: Vec<CompletionItem>)
    ensures
        r@ == spec_sort_by_key(items@),
        r@.to_multiset() == items@.to_multiset(),
        spec_sorted_by_key(r@),
{
    let mut r: Vec<CompletionItem> = Vec::new();
    let n = items.len();
    let mut rest = items;
    let mut i: usize = 0;
    let ghost all = rest@;
    proof {
        assert(r@ =~= all.take(0));
        assert(spec_sort_by_key(all.take(0)) =~= Seq::<CompletionItem>::empty());
    }
    while i < n
        invariant
            0 <= i <= n == all.len(),
            rest@ == all,
            r@ == spec_sort_by_key(all.take(i as int)),
            r@.to_multiset() == all.take(i as int).to_multiset(),
            spec_sorted_by_key(r@),
        decreases n - i,
    {
        let item = clone_item(&rest[i]);
        proof {
            assert(item == all[i as int]);
            assert(all.take(i + 1) =~= all.take(i as int).push(all[i as int]));
            assert(all.take(i as int).push(all[i as int]).to_multiset() =~= all.take(
                i as int,
            ).to_multiset().insert(all[i as int]));
            assert(all.take(i + 1).drop_last() =~= all.take(i as int));
            assert(all.take(i + 1).last() == all[i as int]);
        }
        insert_sorted(&mut r, item);
        i = i + 1;
    }
    proof {
        assert(all.take(n as int) =~= all);
    }
    r
}

/// Insert one candidate into an already ordered list, keeping the order.
fn insert_sorted(items: &mut Vec<CompletionItem>, item: CompletionItem)
    requires
        spec_sorted_by_key(old(items)@),
    ensures
        final(items)@ == spec_sorted_insert(old(items)@, item),
        final(items)@.to_multiset() == old(items)@.to_multiset().insert(item),
        spec_sorted_by_key(final(items)@),
{
    let n = items.len();
    let mut pos: usize = 0;
    while pos < n && key_le(&items[pos], &item)
        invariant
            0 <= pos <= n == items@.len(),
            forall|j: int| 0 <= j < pos ==> spec_key_le(#[trigger] items@[j], item),
        decreases n - pos,
    {
        pos = pos + 1;
    }
    proof {
        assert forall|j: int| pos <= j < n implies spec_key_le(item, #[trigger] items@[j]) by {
            lemma_key_le_total(items@[pos as int], item);
            if j > pos {
                lemma_key_le_trans(item, items@[pos as int], items@[j]);
            }
        }
    }
    let ghost before = items@;
    items.insert(pos, item);
    proof {
        lemma_sorted_insert_at(before, item, pos as int);
        assert(items@ =~= before.take(pos as int) + seq![item] + before.skip(pos as int));
        assert(items@.remove(pos as int) =~= before);
        assert(items@[pos as int] == item);
        assert(items@.remove(pos as int).to_multiset() =~= items@.to_multiset().remove(
            items@[pos as int],
        ));
        assert(items@.contains(item));
        assert(items@.to_multiset().count(item) > 0);
        assert(items@.to_multiset() =~= before.to_multiset().insert(item));
        assert forall|a: int, b: int|
            0 <= a < b < items@.len() implies spec_key_le(items@[a], items@[b]) by {
            if a < pos {
                assert(items@[a] == before[a]);
            } else if a == pos {
                assert(items@[a] == item);
            } else {
                assert(items@[a] == before[a - 1]);
            }
            if b < pos {
                assert(items@[b] == before[b]);
            } else if b == pos {
                assert(items@[b] == item);
            } else {
                assert(items@[b] == before[b - 1]);
            }
            if a < pos && b == pos {
                assert(spec_key_le(before[a], item));
            } else if a < pos && b > pos {
                assert(spec_key_le(before[a], before[b - 1]));
            } else if a == pos && b > pos {
                assert(spec_key_le(item, before[b - 1]));
            }
        }
    }
}

proof fn lemma_key_le_trans(a: CompletionItem, b: CompletionItem, c: CompletionItem)
    requires
        spec_key_le(a, b),
        spec_key_le(b, c),
    ensures
        spec_key_le(a, c),
{
    match (a.sort_text, b.sort_text, c.sort_text) {
        (Some(x), Some(y), Some(z)) => {
            lemma_lex_le_trans(x@, y@, z@);
        },
        _ => {},
    }
}

proof fn lemma_lex_le_trans(a: Seq<char>, b: Seq<char>, c: Seq<char>)
    requires
        spec_lex_le(a, b),
        spec_lex_le(b, c),
    ensures
        spec_lex_le(a, c),
    decreases a.len(),
{
    if a.len() > 0 && b.len() > 0 && c.len() > 0 {
        if a[0] == b[0] && b[0] == c[0] {
            lemma_lex_le_trans(a.drop_first(), b.drop_first(), c.drop_first());
        }
    }
}

/// The labels of the candidates, in order.
pub fn labels_of(items: &Vec<CompletionItem>) -> (r: Vec<String>)
    ensures
        r@.len() == items@.len(),
        forall|i: int| 0 <= i < items@.len() ==> r@[i]@ == (#[trigger] items@[i]).label@,
{
    let mut r: Vec<String> = Vec::new();
    let n = items.len();
    let mut i: usize = 0;
    while i < n
        invariant
            0 <= i <= n == items@.len(),
            r@.len() == i,
            forall|j: int| 0 <= j < i ==> r@[j]@ == (#[trigger] items@[j]).label@,
        decreases n - i,
    {
        r.push(items[i].label.clone());
        i = i + 1;
    }
    r
}

/// Handle one completion response: keep the candidates whose filter text
/// (falling back to label) starts with the tracked prefix, order them by
/// their server-provided sort key — candidates with equal keys keeping
/// arrival order — and hand back their labels.
pub fn handle_completion_response(items: Vec<CompletionItem>, prefix: &Vec<char>) -> (r: Vec<
    String,
>)
    ensures
        r@.len() == spec_sort_by_key(spec_kept(items@, prefix@)).len(),
        forall|i: int|
            0 <= i < r@.len() ==> r@[i]@ == (#[trigger] spec_sort_by_key(
                spec_kept(items@, prefix@),
            )[i]).label@,
{
    let kept = filter_by_prefix(items, prefix);
    let sorted = sort_by_key(kept);
    labels_of(&sorted)
}

/// The on-screen completion list's selection state: the kept candidate
/// labels and which of them is selected.
pub struct CompletionMenuState {
    selected: Option<usize>,
    completions: Vec<String>,
}

impl CompletionMenuState {
    pub closed spec fn spec_selected(&self) -> Option<usize> {
        self.selected
    }

    pub closed spec fn spec_completions(&self) -> Seq<String> {
        self.completions@
    }

    /// A selection, where one exists, points at one of the candidates.
    pub open spec fn wf(&self) -> bool {
        self.spec_selected() matches Some(i) ==> i < self.spec_completions().len()
    }

    pub fn completions(&self) -> (r: &Vec<String>)
        ensures
            r@ == self.spec_completions(),
    {
        &self.completions
    }

    pub fn is_empty(&self) -> (r: bool)
        ensures
            r == (self.spec_completions().len() == 0),
    {
        self.completions.is_empty()
    }

    /// Replace the candidate list; a non-empty list starts selected at its
    /// first entry, an empty one with no selection.
    pub fn set_completions(&mut self, completions: Vec<String>)
        ensures
            final(self).spec_completions() == completions@,
            final(self).spec_selected() == (if completions@.len() == 0 {
                None
            } else {
                Some(0usize)
            }),
            final(self).wf(),
    {
        let selected: Option<usize> = if completions.is_empty() {
            None
        } else {
            Some(0)
        };
        self.completions = completions;
        self.selected = selected;
    }

    /// Move the selection one entry down, wrapping to the top at the end; no
    /// selection stays none.
    pub fn next(&mut self)
        requires
            old(self).wf(),
        ensures
            final(self).wf(),
            final(self).spec_completions() == old(self).spec_completions(),
            final(self).spec_selected() == (match old(self).spec_selected() {
                None => None,
                Some(i) => Some(
                    (if i + 1 < old(self).spec_completions().len() {
                        i + 1
                    } else {
                        0
                    }) as usize,
                ),
            }),
    {
        match self.selected {
            None => {},
            Some(i) => {
                let n = self.completions.len();
                if i < n - 1 {
                    self.selected = Some(i + 1);
                } else {
                    self.selected = Some(0);
                }
            },
        }
    }

    /// Move the selection one entry up, wrapping to the bottom at the top; no
    /// selection stays none.
    pub fn previous(&mut self)
        requires
            old(self).wf(),
        ensures
            final(self).wf(),
            final(self).spec_completions() == old(self).spec_completions(),
            final(self).spec_selected() == (match old(self).spec_selected() {
                None => None,
                Some(i) => Some(
                    (if i > 0 {
                        i - 1
                    } else {
                        old(self).spec_completions().len() - 1
                    }) as usize,
                ),
            }),
    {
        match self.selected {
            None => {},
            Some(i) => {
                if i > 0 {
                    self.selected = Some(i - 1);
                } else {
                    self.selected = Some(self.completions.len() - 1);
                }
            },
        }
    }
}

impl Default for CompletionMenuState {
    /// An empty menu with no selection.
    fn default() -> (s: Self)
        ensures
            s.spec_selected() is None,
            s.spec_completions() == Seq::<String>::empty(),
            s.wf(),
    {
        CompletionMenuState { selected: None, completions: Vec::new() }
    }
}

/// What the session fixed at capability negotiation: the declared trigger
/// characters and the position encoding all position math uses.
pub struct LspCapabilities {
    pub trigger_characters: Vec<String>,
    pub encoding: Encoding,
}

/// The encoding a negotiated kind string selects: the 8-bit or the codepoint
/// encoding when the remote side named it, the 16-bit encoding otherwise and
/// by default.
pub open spec fn spec_encoding_of(kind: Option<Seq<char>>) -> Encoding {
    match kind {
        Some(s) => if s == "utf-8"@ {
            Encoding::Utf8
        } else if s == "utf-32"@ {
            Encoding::Utf32
        } else {
            Encoding::Utf16
        },
        None => Encoding::Utf16,
    }
}

pub fn encoding_from_kind(kind: Option<&String>) -> (r: Encoding)
    ensures
        r == spec_encoding_of(
            match kind {
                Some(k) => Some(k@),
                None => None,
            },
        ),
{
    match kind {
        Some(k) => {
            let utf8_kind: String = "utf-8".to_owned();
            let utf32_kind: String = "utf-32".to_owned();
            if *k == utf8_kind {
                Encoding::Utf8
            } else if *k == utf32_kind {
                Encoding::Utf32
            } else {
                Encoding::Utf16
            }
        },
        None => Encoding::Utf16,
    }
}

} // verus!
