use vstd::prelude::*;
use crate::builder::Merges;
use crate::maps::{
    Vocab, vocab_entries, vocab_new, vocab_insert, id_entries, ids_get, vocab_items, merge_entries,
    merges_items,
};
use crate::model::BPE;
use crate::model::BpeError;
use crate::text::{chars_of, push_char};

verus! {

/// The members of a JSON text, as serde_json parses it: `None` when the text is not
/// JSON, `Some(None)` when it is not an object, otherwise each member's key with its
/// value classified as not a number (`None`), a number that is no `u64` (`Some(None)`),
/// or a `u64`.
pub uninterp spec fn json_members(text: Seq<char>) -> Option<Option<Seq<(Seq<char>, Option<Option<u64>>)>>>;

/// Relies on serde_json::from_str, `Value::Object`, `Map::into_iter`, `Value::Number`
/// and `Number::as_u64`: the members of the parsed object, classified, which depend on the
/// text alone; or the parser's message.
#[verifier::external_body]
fn parse_json_members(text: &str) -> (r: Result<Option<Vec<(String, Option<Option<u64>>)>>, String>)
    ensures
        match r {
            Err(_) => json_members(text@) is None,
            Ok(None) => json_members(text@) == Some(None::<Seq<(Seq<char>, Option<Option<u64>>)>>),
            Ok(Some(ms)) => json_members(text@) == Some(Some(members_view(ms@))),
        },
{
    let m = match serde_json::from_str::<serde_json::Value>(text) {
        Err(e) => return Err(e.to_string()),
        Ok(serde_json::Value::Object(m)) => m,
        Ok(_) => return Ok(None),
    };
    let mut out = Vec::new();
    for (k, v) in m {
        match v {
            serde_json::Value::Number(n) => out.push((k, Some(n.as_u64()))),
            _ => out.push((k, None)),
        }
    }
    Ok(Some(out))
}

/// Lower-case hexadecimal digit of a value below 16.
pub open spec fn lower_hex(n: nat) -> char {
    if n < 10 {
        (48 + n) as char
    } else {
        (87 + n) as char
    }
}

/// How serde_json writes one character inside a string literal: `"` and `\` get a
/// backslash, the control characters 0x08, 0x09, 0x0A, 0x0C, 0x0D become `\b \t \n \f
/// \r`, other characters below 0x20 become `\u00xx`, the rest stay as they are.
pub open spec fn json_escape(c: char) -> Seq<char> {
    let v = c as u32;
    if c == '"' {
        seq!['\\', '"']
    } else if c == '\\' {
        seq!['\\', '\\']
    } else if v == 8 {
        seq!['\\', 'b']
    } else if v == 9 {
        seq!['\\', 't']
    } else if v == 10 {
        seq!['\\', 'n']
    } else if v == 12 {
        seq!['\\', 'f']
    } else if v == 13 {
        seq!['\\', 'r']
    } else if v < 32 {
        seq!['\\', 'u', '0', '0', lower_hex((v / 16) as nat), lower_hex((v % 16) as nat)]
    } else {
        seq![c]
    }
}

pub open spec fn json_escaped(s: Seq<char>) -> Seq<char>
    decreases s.len(),
{
    if s.len() == 0 {
        Seq::empty()
    } else {
        json_escaped(s.drop_last()) + json_escape(s.last())
    }
}

/// The JSON string literal of a string.
pub open spec fn json_quoted(s: Seq<char>) -> Seq<char> {
    seq!['"'] + json_escaped(s) + seq!['"']
}

/// Relies on serde_json::to_string on a `str` (ser.rs `format_escaped_str`): the string
/// quoted, with the escapes of `json_escape`. Writing to a `Vec` cannot fail.
#[verifier::external_body]
fn json_quote(s: &str) -> (r: String)
    ensures
        r@ == json_quoted(s@),
{
    serde_json::to_string(s).unwrap_or_default()
}

pub open spec fn digit(n: nat) -> char {
    (48 + n % 10) as char
}

/// Decimal digits of a number.
pub open spec fn decimal(n: nat) -> Seq<char>
    decreases n,
{
    if n < 10 {
        seq![digit(n)]
    } else {
        decimal(n / 10).push(digit(n))
    }
}

fn push_decimal(s: &mut String, n: u32)
    ensures
        final(s)@ == old(s)@ + decimal(n as nat),
    decreases n,
{
    if n >= 10 {
        push_decimal(s, n / 10);
    }
    let d = (n % 10) as u8;
    push_char(s, (48u8 + d) as char);
    assert(final(s)@ =~= old(s)@ + decimal(n as nat));
}

/// One vocabulary entry, `"token":id`.
pub open spec fn json_entry(id: u32, tok: Seq<char>) -> Seq<char> {
    json_quoted(tok) + seq![':'] + decimal(id as nat)
}

/// The entries of the ids below `n`, in id order, separated by commas.
pub open spec fn json_entries(ids: Map<u32, Seq<char>>, n: nat) -> Seq<char>
    decreases n,
{
    if n == 0 {
        Seq::empty()
    } else {
        let prev = json_entries(ids, (n - 1) as nat);
        let id = (n - 1) as u32;
        if ids.contains_key(id) {
            if prev.len() == 0 {
                json_entry(id, ids[id])
            } else {
                prev + seq![','] + json_entry(id, ids[id])
            }
        } else {
            prev
        }
    }
}

/// The vocabulary as a JSON object with its entries in ascending id order.
pub open spec fn vocab_json_text(ids: Map<u32, Seq<char>>) -> Seq<char> {
    seq!['{'] + json_entries(ids, 0x1_0000_0000) + seq!['}']
}

proof fn lemma_entries_stop(ids: Map<u32, Seq<char>>, n: nat, m: nat)
    requires
        n <= m <= 0x1_0000_0000,
        forall|i: u32| #[trigger] ids.contains_key(i) ==> (i as nat) < n,
    ensures
        json_entries(ids, m) == json_entries(ids, n),
    decreases m - n,
{
    if n < m {
        lemma_entries_stop(ids, n, (m - 1) as nat);
        assert(!ids.contains_key((m - 1) as u32));
    }
}

impl BPE {
    /// The vocabulary as canonical JSON: `{"token":id,...}` in ascending id order.
    pub fn vocab_json(&self) -> (r: String)
        requires
            self.wf(),
        ensures
            r@ == vocab_json_text(self.ids_map()),
    {
        proof {
            self.lemma_maps();
        }
        let items = vocab_items(&self.vocab);
        let mut max: u32 = 0;
        let mut t: usize = 0;
        while t < items.len()
            invariant
                t <= items@.len(),
                forall|j: int| 0 <= j < t ==> (#[trigger] items@[j]).1 <= max,
            decreases items@.len() - t,
        {
            if items[t].1 > max {
                max = items[t].1;
            }
            t = t + 1;
        }
        proof {
            assert forall|i: u32| #[trigger] self.ids_map().contains_key(i) implies i <= max by {
                self.lemma_id_is_value(i);
                let s = self.ids_map()[i];
                let j = choose|j: int| 0 <= j < items@.len() && (#[trigger] items@[j]).0@ == s;
                assert(items@[j].1 <= max);
            }
        }
        let mut out = String::new();
        push_char(&mut out, '{');
        let ghost ids = self.ids_map();
        let mut n: u64 = 0;
        let mut empty = true;
        while n <= max as u64
            invariant
                ids == self.ids_map(),
                ids == id_entries(self.vocab_r),
                n <= max as u64 + 1,
                out@ == seq!['{'] + json_entries(ids, n as nat),
                empty == (json_entries(ids, n as nat).len() == 0),
            decreases max as u64 + 1 - n,
        {
            let id = n as u32;
            match ids_get(&self.vocab_r, id) {
                Some(tok) => {
                    if !empty {
                        push_char(&mut out, ',');
                    }
                    let q = json_quote(tok.as_str());
                    out.append(q.as_str());
                    push_char(&mut out, ':');
                    push_decimal(&mut out, id);
                    proof {
                        assert(ids.contains_key(id));
                        assert(json_entry(id, ids[id]).len() > 0);
                        assert(((n + 1) as nat - 1) as u32 == id);
                        assert(out@ =~= seq!['{'] + json_entries(ids, (n + 1) as nat));
                    }
                    empty = false;
                },
                None => {},
            }
            n = n + 1;
        }
        proof {
            lemma_entries_stop(ids, n as nat, 0x1_0000_0000);
        }
        push_char(&mut out, '}');
        proof {
            assert(out@ =~= vocab_json_text(ids));
        }
        out
    }
}

/// Some pair has a merge of rank `r`.
pub open spec fn has_rank(ms: Map<(u32, u32), (u32, u32)>, r: u32) -> bool {
    exists|p: (u32, u32)| ms.contains_key(p) && ms[p].0 == r
}

/// One line of the merges file, `a b\n`.
pub open spec fn merge_line(ids: Map<u32, Seq<char>>, p: (u32, u32)) -> Seq<char> {
    ids[p.0] + seq![' '] + ids[p.1] + seq!['\n']
}

/// The lines of the merges of rank below `n`, in rank order.
pub open spec fn merge_lines(ids: Map<u32, Seq<char>>, ms: Map<(u32, u32), (u32, u32)>, n: nat) -> Seq<char>
    decreases n,
{
    if n == 0 {
        Seq::empty()
    } else {
        let r = (n - 1) as u32;
        if has_rank(ms, r) {
            merge_lines(ids, ms, (n - 1) as nat) + merge_line(
                ids,
                choose|p: (u32, u32)| ms.contains_key(p) && ms[p].0 == r,
            )
        } else {
            merge_lines(ids, ms, (n - 1) as nat)
        }
    }
}

pub open spec fn version_header() -> Seq<char> {
    seq!['#', 'v', 'e', 'r', 's', 'i', 'o', 'n', ':', ' ', '0', '.', '2', '\n']
}

/// The merges file: the version header, then one line per merge in rank order.
pub open spec fn merges_file_text(ids: Map<u32, Seq<char>>, ms: Map<(u32, u32), (u32, u32)>) -> Seq<char> {
    version_header() + merge_lines(ids, ms, 0x1_0000_0000)
}

proof fn lemma_lines_stop(ids: Map<u32, Seq<char>>, ms: Map<(u32, u32), (u32, u32)>, n: nat, m: nat)
    requires
        n <= m <= 0x1_0000_0000,
        forall|p: (u32, u32)| #[trigger] ms.contains_key(p) ==> (ms[p].0 as nat) < n,
    ensures
        merge_lines(ids, ms, m) == merge_lines(ids, ms, n),
    decreases m - n,
{
    if n < m {
        lemma_lines_stop(ids, ms, n, (m - 1) as nat);
        assert(!has_rank(ms, (m - 1) as u32));
    }
}

/// The pair of tokens of each merge of rank below `n`, in rank order.
pub open spec fn rank_pairs(ids: Map<u32, Seq<char>>, ms: Map<(u32, u32), (u32, u32)>, n: nat) -> Seq<(Seq<char>, Seq<char>)>
    decreases n,
{
    if n == 0 {
        Seq::empty()
    } else {
        let r = (n - 1) as u32;
        if has_rank(ms, r) {
            let p = choose|p: (u32, u32)| ms.contains_key(p) && ms[p].0 == r;
            rank_pairs(ids, ms, (n - 1) as nat).push((ids[p.0], ids[p.1]))
        } else {
            rank_pairs(ids, ms, (n - 1) as nat)
        }
    }
}

/// The lines (without line break) of the merges of rank below `n`, in rank order.
pub open spec fn rank_lines(ids: Map<u32, Seq<char>>, ms: Map<(u32, u32), (u32, u32)>, n: nat) -> Seq<Seq<char>>
    decreases n,
{
    if n == 0 {
        Seq::empty()
    } else {
        let r = (n - 1) as u32;
        if has_rank(ms, r) {
            let p = choose|p: (u32, u32)| ms.contains_key(p) && ms[p].0 == r;
            rank_lines(ids, ms, (n - 1) as nat).push(ids[p.0] + seq![' '] + ids[p.1])
        } else {
            rank_lines(ids, ms, (n - 1) as nat)
        }
    }
}

/// The tokens of a merge can stand in a merges line and be read back: no space or line
/// break in either, the first does not start with `#`, the second does not end with `\r`.
pub open spec fn plain_pair(a: Seq<char>, b: Seq<char>) -> bool {
    &&& forall|i: int| 0 <= i < a.len() ==> a[i] != ' ' && a[i] != '\n'
    &&& forall|i: int| 0 <= i < b.len() ==> b[i] != ' ' && b[i] != '\n'
    &&& !is_header(a + seq![' '] + b)
    &&& !(b.len() > 0 && b[b.len() - 1] == '\r')
}

proof fn lemma_scan_prefix(cs: Seq<char>, ds: Seq<char>, n: nat)
    requires
        n <= cs.len(),
        n <= ds.len(),
        cs.take(n as int) == ds.take(n as int),
    ensures
        line_scan(cs, n) == line_scan(ds, n),
    decreases n,
{
    if n > 0 {
        assert(cs.take(n - 1) =~= cs.take(n as int).take(n - 1));
        assert(ds.take(n - 1) =~= ds.take(n as int).take(n - 1));
        lemma_scan_prefix(cs, ds, (n - 1) as nat);
        assert(cs[n - 1] == cs.take(n as int)[n - 1]);
        assert(ds[n - 1] == ds.take(n as int)[n - 1]);
    }
}

proof fn lemma_scan_line(pre: Seq<char>, l: Seq<char>, k: nat)
    requires
        line_scan(pre, pre.len()).1.len() == 0,
        forall|i: int| 0 <= i < l.len() ==> l[i] != '\n',
        k <= l.len(),
    ensures
        line_scan(pre + l + seq!['\n'], pre.len() + k) == (line_scan(pre, pre.len()).0, l.take(k as int)),
    decreases k,
{
    let t = pre + l + seq!['\n'];
    if k == 0 {
        assert(t.take(pre.len() as int) =~= pre.take(pre.len() as int));
        lemma_scan_prefix(t, pre, pre.len());
        assert(line_scan(pre, pre.len()).1 =~= l.take(0));
    } else {
        lemma_scan_line(pre, l, (k - 1) as nat);
        assert(t[pre.len() + k - 1] == l[k - 1]);
        assert(l.take(k - 1).push(l[k - 1]) =~= l.take(k as int));
    }
}

proof fn lemma_scan_full_line(pre: Seq<char>, l: Seq<char>)
    requires
        line_scan(pre, pre.len()).1.len() == 0,
        forall|i: int| 0 <= i < l.len() ==> l[i] != '\n',
    ensures
        line_scan(pre + l + seq!['\n'], (pre + l + seq!['\n']).len())
            == (line_scan(pre, pre.len()).0.push(strip_cr(l)), Seq::<char>::empty()),
{
    let t = pre + l + seq!['\n'];
    lemma_scan_line(pre, l, l.len());
    assert(l.take(l.len() as int) =~= l);
    assert(t[t.len() - 1] == '\n');
    assert(t.len() - 1 == pre.len() + l.len());
}

pub open spec fn header_line() -> Seq<char> {
    seq!['#', 'v', 'e', 'r', 's', 'i', 'o', 'n', ':', ' ', '0', '.', '2']
}

proof fn lemma_text_lines(ids: Map<u32, Seq<char>>, ms: Map<(u32, u32), (u32, u32)>, n: nat)
    requires
        forall|p: (u32, u32)| #[trigger] ms.contains_key(p) ==> plain_pair(ids[p.0], ids[p.1]),
    ensures
        ({
            let t = version_header() + merge_lines(ids, ms, n);
            line_scan(t, t.len()) == (seq![header_line()] + rank_lines(ids, ms, n), Seq::<char>::empty())
        }),
    decreases n,
{
    let t = version_header() + merge_lines(ids, ms, n);
    if n == 0 {
        assert(t =~= Seq::<char>::empty() + header_line() + seq!['\n']);
        assert(line_scan(Seq::<char>::empty(), 0) == (Seq::<Seq<char>>::empty(), Seq::<char>::empty()));
        lemma_scan_full_line(Seq::<char>::empty(), header_line());
        assert(strip_cr(header_line()) == header_line());
        assert(seq![header_line()] + rank_lines(ids, ms, 0) =~= Seq::<Seq<char>>::empty().push(header_line()));
    } else {
        lemma_text_lines(ids, ms, (n - 1) as nat);
        let r = (n - 1) as u32;
        if has_rank(ms, r) {
            let p = choose|p: (u32, u32)| ms.contains_key(p) && ms[p].0 == r;
            let a = ids[p.0];
            let b = ids[p.1];
            let l = a + seq![' '] + b;
            let prev = version_header() + merge_lines(ids, ms, (n - 1) as nat);
            assert(t =~= prev + l + seq!['\n']);
            assert(plain_pair(a, b));
            assert forall|i: int| 0 <= i < l.len() implies l[i] != '\n' by {
                if i < a.len() {
                    assert(l[i] == a[i]);
                } else if i > a.len() {
                    assert(l[i] == b[i - a.len() - 1]);
                }
            }
            lemma_scan_full_line(prev, l);
            assert(strip_cr(l) == l) by {
                if l.len() > 0 && l[l.len() - 1] == '\r' {
                    if b.len() > 0 {
                        assert(l[l.len() - 1] == b[b.len() - 1]);
                    }
                }
            }
            assert(seq![header_line()] + rank_lines(ids, ms, n) =~= (seq![header_line()] + rank_lines(ids, ms, (n - 1) as nat)).push(l));
        }
    }
}

proof fn lemma_parse_prefix(ls1: Seq<Seq<char>>, ls2: Seq<Seq<char>>, n: nat)
    requires
        n <= ls1.len(),
        n <= ls2.len(),
        ls1.take(n as int) == ls2.take(n as int),
    ensures
        parse_merges(ls1, n) == parse_merges(ls2, n),
        counted_lines(ls1, n) == counted_lines(ls2, n),
    decreases n,
{
    if n > 0 {
        assert(ls1.take(n - 1) =~= ls1.take(n as int).take(n - 1));
        assert(ls2.take(n - 1) =~= ls2.take(n as int).take(n - 1));
        lemma_parse_prefix(ls1, ls2, (n - 1) as nat);
        assert(ls1[n - 1] == ls1.take(n as int)[n - 1]);
        assert(ls2[n - 1] == ls2.take(n as int)[n - 1]);
    }
}

proof fn lemma_parse_lines(ids: Map<u32, Seq<char>>, ms: Map<(u32, u32), (u32, u32)>, n: nat)
    requires
        forall|p: (u32, u32)| #[trigger] ms.contains_key(p) ==> plain_pair(ids[p.0], ids[p.1]),
    ensures
        ({
            let ls = seq![header_line()] + rank_lines(ids, ms, n);
            parse_merges(ls, ls.len()) == Ok::<Seq<(Seq<char>, Seq<char>)>, nat>(rank_pairs(ids, ms, n))
        }),
    decreases n,
{
    let ls = seq![header_line()] + rank_lines(ids, ms, n);
    if n == 0 {
        assert(ls =~= seq![header_line()]);
        assert(header_line().take(8) =~= seq!['#', 'v', 'e', 'r', 's', 'i', 'o', 'n']);
        assert(is_header(header_line()));
        assert(parse_merges(ls, 0) == Ok::<Seq<(Seq<char>, Seq<char>)>, nat>(Seq::empty()));
    } else {
        lemma_parse_lines(ids, ms, (n - 1) as nat);
        let r = (n - 1) as u32;
        if has_rank(ms, r) {
            let p = choose|p: (u32, u32)| ms.contains_key(p) && ms[p].0 == r;
            let a = ids[p.0];
            let b = ids[p.1];
            let l = a + seq![' '] + b;
            let prev = seq![header_line()] + rank_lines(ids, ms, (n - 1) as nat);
            assert(ls =~= prev.push(l));
            assert(ls.take(prev.len() as int) =~= prev.take(prev.len() as int));
            lemma_parse_prefix(ls, prev, prev.len());
            assert(plain_pair(a, b));
            assert(!is_header(l));
            let i = a.len() as int;
            assert(single_space_at(l, i)) by {
                assert forall|j: int| 0 <= j < l.len() && j != i implies l[j] != ' ' by {
                    if j < i {
                        assert(l[j] == a[j]);
                    } else {
                        assert(l[j] == b[j - i - 1]);
                    }
                }
            }
            let c = choose|x: int| single_space_at(l, x);
            assert(c == i) by {
                if c != i {
                    assert(l[i] == ' ');
                }
            }
            assert(l.take(i) =~= a);
            assert(l.skip(i + 1) =~= b);
        } else {
            assert(ls =~= seq![header_line()] + rank_lines(ids, ms, (n - 1) as nat));
        }
    }
}

/// Reading back the merges file text gives each merge's pair of tokens, in rank order,
/// when no token of a merge holds a space or a line break, no first token starts with
/// `#`, and no second token ends with `\r`.
pub proof fn lemma_merges_text_round_trip(ids: Map<u32, Seq<char>>, ms: Map<(u32, u32), (u32, u32)>)
    requires
        forall|p: (u32, u32)| #[trigger] ms.contains_key(p) ==> plain_pair(ids[p.0], ids[p.1]),
    ensures
        merges_of_text(merges_file_text(ids, ms)) == Ok::<Seq<(Seq<char>, Seq<char>)>, nat>(
            rank_pairs(ids, ms, 0x1_0000_0000),
        ),
{
    let t = merges_file_text(ids, ms);
    lemma_text_lines(ids, ms, 0x1_0000_0000);
    assert(lines(t) == seq![header_line()] + rank_lines(ids, ms, 0x1_0000_0000));
    lemma_parse_lines(ids, ms, 0x1_0000_0000);
}

fn push_str(s: &mut String, t: &str)
    ensures
        final(s)@ == old(s)@ + t@,
{
    s.append(t);
}

impl BPE {
    /// The merges file text: `#version: 0.2` and one `a b` line per merge, by rank.
    pub fn merges_text(&self) -> (r: String)
        requires
            self.wf(),
        ensures
            r@ == merges_file_text(self.ids_map(), self.merge_map()),
    {
        proof {
            self.lemma_maps();
        }
        let ghost ms = merge_entries(self.merges);
        let ghost ids = id_entries(self.vocab_r);
        let items = merges_items(&self.merges);
        let mut max: u32 = 0;
        let mut t: usize = 0;
        while t < items.len()
            invariant
                t <= items@.len(),
                forall|j: int| 0 <= j < t ==> (#[trigger] items@[j]).1.0 <= max,
            decreases items@.len() - t,
        {
            if items[t].1.0 > max {
                max = items[t].1.0;
            }
            t = t + 1;
        }
        let mut slots: Vec<Option<(u32, u32)>> = Vec::new();
        let mut k: u64 = 0;
        while k <= max as u64
            invariant
                k <= max as u64 + 1,
                slots@.len() == k,
                forall|j: int| 0 <= j < k ==> slots@[j] is None,
            decreases max as u64 + 1 - k,
        {
            slots.push(None);
            k = k + 1;
        }
        let mut t: usize = 0;
        while t < items.len()
            invariant
                ms == merge_entries(self.merges),
                t <= items@.len(),
                slots@.len() == max as int + 1,
                forall|j: int| 0 <= j < items@.len() ==> (#[trigger] items@[j]).1.0 <= max,
                forall|i: int| 0 <= i < items@.len() ==> #[trigger] ms.contains_key(items@[i].0) && ms[items@[i].0] == items@[i].1,
                forall|r: int| 0 <= r <= max ==> match #[trigger] slots@[r] {
                    Some(p) => ms.contains_key(p) && ms[p].0 == r,
                    None => forall|j: int| 0 <= j < t ==> (#[trigger] items@[j]).1.0 != r,
                },
            decreases items@.len() - t,
        {
            let rank = items[t].1.0;
            let pair = items[t].0;
            slots.set(rank as usize, Some(pair));
            t = t + 1;
        }
        proof {
            assert forall|p: (u32, u32)| #[trigger] ms.contains_key(p) implies ms[p].0 <= max by {
                let j = choose|j: int| 0 <= j < items@.len() && (#[trigger] items@[j]).0 == p;
                assert(items@[j].1.0 <= max);
            }
        }
        let mut out = String::new();
        push_str(&mut out, "#version: 0.2\n");
        proof {
            reveal_strlit("#version: 0.2\n");
            assert(out@ =~= version_header());
            assert(merge_lines(ids, ms, 0) =~= Seq::<char>::empty());
        }
        let mut r: u64 = 0;
        while r <= max as u64
            invariant
                ms == merge_entries(self.merges),
                ids == id_entries(self.vocab_r),
                self.wf(),
                r <= max as u64 + 1,
                slots@.len() == max as int + 1,
                forall|p: (u32, u32)| #[trigger] ms.contains_key(p) ==> ms[p].0 <= max,
                forall|rr: int| 0 <= rr <= max ==> match #[trigger] slots@[rr] {
                    Some(p) => ms.contains_key(p) && ms[p].0 == rr,
                    None => !has_rank(ms, rr as u32),
                },
                out@ == version_header() + merge_lines(ids, ms, r as nat),
            decreases max as u64 + 1 - r,
        {
            match slots[r as usize] {
                Some(p) => {
                    proof {
                        assert(ms.contains_key(p));
                        self.lemma_merge_facts(p, p);
                    }
                    let a = match ids_get(&self.vocab_r, p.0) {
                        Some(a) => a,
                        None => String::new(),
                    };
                    let b = match ids_get(&self.vocab_r, p.1) {
                        Some(b) => b,
                        None => String::new(),
                    };
                    push_str(&mut out, a.as_str());
                    push_char(&mut out, ' ');
                    push_str(&mut out, b.as_str());
                    push_char(&mut out, '\n');
                    proof {
                        let rk = r as u32;
                        assert(has_rank(ms, rk));
                        let c = choose|q: (u32, u32)| ms.contains_key(q) && ms[q].0 == rk;
                        self.lemma_merge_facts(p, c);
                        assert(c == p);
                        assert(((r + 1) as nat - 1) as u32 == rk);
                        assert(out@ =~= version_header() + merge_lines(ids, ms, (r + 1) as nat));
                    }
                },
                None => {
                    proof {
                        assert(((r + 1) as nat - 1) as u32 == r as u32);
                    }
                },
            }
            r = r + 1;
        }
        proof {
            lemma_lines_stop(ids, ms, r as nat, 0x1_0000_0000);
        }
        out
    }
}

/// The vocabulary that the first `n` members give: a member whose value is not an
/// unsigned 64-bit integer is an error; the others are kept with their low 32 bits.
pub open spec fn vocab_of_members(es: Seq<(Seq<char>, Option<Option<u64>>)>, n: nat) -> Option<Map<Seq<char>, u32>>
    decreases n,
{
    if n == 0 {
        Some(Map::empty())
    } else {
        match vocab_of_members(es, (n - 1) as nat) {
            None => None,
            Some(m) => match es[n - 1].1 {
                None => None,
                Some(None) => None,
                Some(Some(x)) => Some(m.insert(es[n - 1].0, x as u32)),
            },
        }
    }
}

proof fn lemma_members_error_stays(es: Seq<(Seq<char>, Option<Option<u64>>)>, n: nat, m: nat)
    requires
        n <= m,
        vocab_of_members(es, n) is None,
    ensures
        vocab_of_members(es, m) is None,
    decreases m - n,
{
    if n < m {
        lemma_members_error_stays(es, n, (m - 1) as nat);
    }
}

pub open spec fn members_view(es: Seq<(String, Option<Option<u64>>)>) -> Seq<(Seq<char>, Option<Option<u64>>)> {
    es.map_values(|e: (String, Option<Option<u64>>)| (e.0@, e.1))
}

/// Builds a vocabulary from the members of a JSON object, each classified as not a
/// number (`None`), a number that is no `u64` (`Some(None)`), or a `u64`.
pub fn vocab_from_members(members: Vec<(String, Option<Option<u64>>)>) -> (r: Result<Vocab, BpeError>)
    ensures
        match r {
            Ok(v) => vocab_of_members(members_view(members@), members@.len()) == Some(vocab_entries(v)),
            Err(e) => vocab_of_members(members_view(members@), members@.len()) is None && e
                == BpeError::BadVocabulary,
        },
{
    let ghost es = members_view(members@);
    let n = members.len();
    let mut vocab = vocab_new();
    let ghost all = members@;
    let mut k: usize = 0;
    while k < n
        invariant
            n == all.len(),
            members@ == all,
            es == members_view(all),
            k <= n,
            vocab_of_members(es, k as nat) == Some(vocab_entries(vocab)),
        decreases n - k,
    {
        let kind = members[k].1;
        match kind {
            Some(Some(x)) => {
                let token = members[k].0.clone();
                vocab_insert(&mut vocab, token, x as u32);
            },
            _ => {
                proof {
                    assert(!(es[k as int].1 matches Some(Some(_))));
                    assert(vocab_of_members(es, (k + 1) as nat) is None);
                    lemma_members_error_stays(es, (k + 1) as nat, n as nat);
                }
                return Err(BpeError::BadVocabulary);
            },
        }
        k = k + 1;
    }
    Ok(vocab)
}

/// What reading a vocabulary from JSON text gives: `Err(BadJson(_))` for text that is
/// not JSON, `Err(BadVocabulary)` for anything but an object of unsigned integers.
pub open spec fn vocab_read(text: Seq<char>, r: Result<Vocab, BpeError>) -> bool {
    match json_members(text) {
        None => r matches Err(BpeError::BadJson(_)),
        Some(None) => r == Err::<Vocab, BpeError>(BpeError::BadVocabulary),
        Some(Some(ms)) => match vocab_of_members(ms, ms.len()) {
            None => r == Err::<Vocab, BpeError>(BpeError::BadVocabulary),
            Some(m) => r matches Ok(v) && vocab_entries(v) == m,
        },
    }
}

/// The text is a JSON object whose members' values are all unsigned integers.
pub open spec fn vocab_readable(text: Seq<char>) -> bool {
    json_members(text) matches Some(Some(ms)) && vocab_of_members(ms, ms.len()) is Some
}

/// Reads a vocabulary from JSON text: an object whose members' values are the ids.
pub fn vocab_from_json(text: &str) -> (r: Result<Vocab, BpeError>)
    ensures
        vocab_read(text@, r),
{
    match parse_json_members(text) {
        Err(msg) => Err(BpeError::BadJson(msg)),
        Ok(None) => Err(BpeError::BadVocabulary),
        Ok(Some(ms)) => vocab_from_members(ms),
    }
}

/// Reads a vocabulary (JSON text) and merges (merges file text).
pub fn read_vocab_and_merges(vocab: &str, merges: &str) -> (r: Result<(Vocab, Merges), BpeError>)
    ensures
        match r {
            Ok((v, ms)) => {
                &&& vocab_read(vocab@, Ok(v))
                &&& merges_of_text(merges@) matches Ok(m) && ms@.len() == m.len() && forall|i: int|
                    0 <= i < m.len() ==> (#[trigger] ms@[i]).0@ == m[i].0 && ms@[i].1@ == m[i].1
            },
            Err(e) => {
                ||| vocab_read(vocab@, Err(e))
                ||| vocab_readable(vocab@) && (merges_of_text(merges@) matches Err(n) && e
                    == BpeError::BadMerges(n as usize))
            },
        },
{
    let v = match vocab_from_json(vocab) {
        Ok(v) => v,
        Err(e) => {
            return Err(e);
        },
    };
    let m = match merges_from_text(merges) {
        Ok(m) => m,
        Err(e) => {
            return Err(e);
        },
    };
    Ok((v, m))
}

/// Drops one trailing carriage return.
pub open spec fn strip_cr(l: Seq<char>) -> Seq<char> {
    if l.len() > 0 && l.last() == '\r' {
        l.drop_last()
    } else {
        l
    }
}

/// Lines finished after the first `n` characters, and the line in progress.
pub open spec fn line_scan(cs: Seq<char>, n: nat) -> (Seq<Seq<char>>, Seq<char>)
    decreases n,
{
    if n == 0 {
        (Seq::empty(), Seq::empty())
    } else {
        let (ls, cur) = line_scan(cs, (n - 1) as nat);
        if cs[n - 1] == '\n' {
            (ls.push(strip_cr(cur)), Seq::empty())
        } else {
            (ls, cur.push(cs[n - 1]))
        }
    }
}

/// The lines of a text: split at `\n`, without a trailing `\r`; a final empty line
/// does not count.
pub open spec fn lines(cs: Seq<char>) -> Seq<Seq<char>> {
    let (ls, cur) = line_scan(cs, cs.len());
    if cur.len() > 0 {
        ls.push(strip_cr(cur))
    } else {
        ls
    }
}

/// A version header line, `#version...`.
pub open spec fn is_header(l: Seq<char>) -> bool {
    l.len() >= 8 && l.take(8) == seq!['#', 'v', 'e', 'r', 's', 'i', 'o', 'n']
}

/// The line holds exactly one space, at `i`.
pub open spec fn single_space_at(l: Seq<char>, i: int) -> bool {
    &&& 0 <= i < l.len()
    &&& l[i] == ' '
    &&& forall|j: int| 0 <= j < l.len() && j != i ==> l[j] != ' '
}

/// Number of the first `n` lines that are not version headers.
pub open spec fn counted_lines(ls: Seq<Seq<char>>, n: nat) -> nat
    decreases n,
{
    if n == 0 {
        0
    } else if is_header(ls[n - 1]) {
        counted_lines(ls, (n - 1) as nat)
    } else {
        counted_lines(ls, (n - 1) as nat) + 1
    }
}

/// Merges of the first `n` lines, skipping empty lines and version headers, or the
/// 1-based number (header lines not counted, empty lines counted) of the first line that
/// is not two tokens separated by one space.
pub open spec fn parse_merges(ls: Seq<Seq<char>>, n: nat) -> Result<Seq<(Seq<char>, Seq<char>)>, nat>
    decreases n,
{
    if n == 0 {
        Ok(Seq::empty())
    } else {
        match parse_merges(ls, (n - 1) as nat) {
            Err(e) => Err(e),
            Ok(ms) => {
                let l = ls[n - 1];
                if l.len() == 0 || is_header(l) {
                    Ok(ms)
                } else if exists|i: int| single_space_at(l, i) {
                    let i = choose|i: int| single_space_at(l, i);
                    Ok(ms.push((l.take(i), l.skip(i + 1))))
                } else {
                    Err(counted_lines(ls, n))
                }
            },
        }
    }
}

proof fn lemma_parse_error_stays(ls: Seq<Seq<char>>, n: nat, m: nat)
    requires
        n <= m,
        parse_merges(ls, n) is Err,
    ensures
        parse_merges(ls, m) == parse_merges(ls, n),
    decreases m - n,
{
    if n < m {
        lemma_parse_error_stays(ls, n, (m - 1) as nat);
    }
}

pub open spec fn merges_of_text(cs: Seq<char>) -> Result<Seq<(Seq<char>, Seq<char>)>, nat> {
    parse_merges(lines(cs), lines(cs).len())
}

/// Splits a text into lines.
pub fn split_lines(text: &str) -> (r: Vec<Vec<char>>)
    ensures
        r@.len() == lines(text@).len(),
        forall|i: int| 0 <= i < r@.len() ==> (#[trigger] r@[i])@ == lines(text@)[i],
{
    let cs = chars_of(text);
    let mut r: Vec<Vec<char>> = Vec::new();
    let mut cur: Vec<char> = Vec::new();
    let mut k: usize = 0;
    while k < cs.len()
        invariant
            cs@ == text@,
            k <= cs@.len(),
            r@.len() == line_scan(cs@, k as nat).0.len(),
            forall|i: int| 0 <= i < r@.len() ==> (#[trigger] r@[i])@ == line_scan(cs@, k as nat).0[i],
            cur@ == line_scan(cs@, k as nat).1,
        decreases cs@.len() - k,
    {
        let c = cs[k];
        if c == '\n' {
            let line = without_cr(cur);
            r.push(line);
            cur = Vec::new();
        } else {
            cur.push(c);
        }
        k = k + 1;
    }
    if cur.len() > 0 {
        let line = without_cr(cur);
        r.push(line);
    }
    r
}

fn without_cr(v: Vec<char>) -> (r: Vec<char>)
    ensures
        r@ == strip_cr(v@),
{
    let mut v = v;
    let n = v.len();
    if n > 0 && v[n - 1] == '\r' {
        v.pop();
    }
    v
}

fn string_of(cs: &[char], start: usize, end: usize) -> (r: String)
    requires
        start <= end <= cs@.len(),
    ensures
        r@ == cs@.subrange(start as int, end as int),
{
    let mut s = String::new();
    let mut k = start;
    while k < end
        invariant
            start <= k <= end <= cs@.len(),
            s@ == cs@.subrange(start as int, k as int),
        decreases end - k,
    {
        push_char(&mut s, cs[k]);
        assert(s@ =~= cs@.subrange(start as int, k + 1));
        k = k + 1;
    }
    s
}

fn starts_with_header(l: &Vec<char>) -> (r: bool)
    ensures
        r == is_header(l@),
{
    if l.len() < 8 {
        return false;
    }
    let r = l[0] == '#' && l[1] == 'v' && l[2] == 'e' && l[3] == 'r' && l[4] == 's' && l[5] == 'i'
        && l[6] == 'o' && l[7] == 'n';
    assert(r == (l@.take(8) =~= seq!['#', 'v', 'e', 'r', 's', 'i', 'o', 'n']));
    r
}

/// The position of the only space of the line, if it has exactly one.
fn single_space(l: &Vec<char>) -> (r: Option<usize>)
    ensures
        r matches Some(i) ==> single_space_at(l@, i as int),
        r is None ==> !exists|i: int| single_space_at(l@, i),
{
    let mut found: Option<usize> = None;
    let mut k: usize = 0;
    while k < l.len()
        invariant
            k <= l@.len(),
            found matches Some(i) ==> i < k && l@[i as int] == ' ' && forall|j: int|
                0 <= j < k && j != i ==> l@[j] != ' ',
            found is None ==> forall|j: int| 0 <= j < k ==> l@[j] != ' ',
        decreases l@.len() - k,
    {
        if l[k] == ' ' {
            match found {
                Some(i) => {
                    assert(!exists|x: int| single_space_at(l@, x)) by {
                        if exists|x: int| single_space_at(l@, x) {
                            let x = choose|x: int| single_space_at(l@, x);
                            assert(l@[i as int] == ' ');
                            assert(l@[k as int] == ' ');
                        }
                    }
                    return None;
                },
                None => {
                    found = Some(k);
                },
            }
        }
        k = k + 1;
    }
    proof {
        if found is None {
            assert(!exists|x: int| single_space_at(l@, x)) by {
                if exists|x: int| single_space_at(l@, x) {
                    let x = choose|x: int| single_space_at(l@, x);
                    assert(l@[x] == ' ');
                }
            }
        }
    }
    found
}

/// Reads the merges file format: one `a b` pair per line, in priority order,
/// `#version` lines and empty lines skipped.
pub fn merges_from_text(text: &str) -> (r: Result<Merges, BpeError>)
    ensures
        match r {
            Ok(ms) => merges_of_text(text@) matches Ok(v) && ms@.len() == v.len() && forall|i: int|
                0 <= i < v.len() ==> (#[trigger] ms@[i]).0@ == v[i].0 && ms@[i].1@ == v[i].1,
            Err(e) => merges_of_text(text@) matches Err(n) && e == BpeError::BadMerges(n as usize),
        },
{
    let ls = split_lines(text);
    let ghost sl = lines(text@);
    let mut ms: Merges = Vec::new();
    let mut counted: usize = 0;
    let mut k: usize = 0;
    while k < ls.len()
        invariant
            counted == counted_lines(sl, k as nat),
            counted <= k,
            ms@.len() <= counted,
            sl == lines(text@),
            ls@.len() == sl.len(),
            forall|i: int| 0 <= i < ls@.len() ==> (#[trigger] ls@[i])@ == sl[i],
            k <= ls@.len(),
            ms@.len() <= k,
            parse_merges(sl, k as nat) matches Ok(v) && ms@.len() == v.len() && forall|i: int|
                0 <= i < v.len() ==> (#[trigger] ms@[i]).0@ == v[i].0 && ms@[i].1@ == v[i].1,
        decreases ls@.len() - k,
    {
        let l = &ls[k];
        let ghost v = parse_merges(sl, k as nat)->Ok_0;
        assert(l@ == sl[k as int]);
        let header = starts_with_header(l);
        if !header {
            counted = counted + 1;
        }
        if l.len() > 0 && !header {
            match single_space(l) {
                Some(i) => {
                    let len = l.len();
                    assert(i < len);
                    let a = string_of(l.as_slice(), 0, i);
                    let b = string_of(l.as_slice(), i + 1, l.len());
                    proof {
                        let c = choose|x: int| single_space_at(l@, x);
                        assert(c == i);
                        assert(l@.subrange(0, i as int) =~= l@.take(i as int));
                        assert(l@.subrange(i + 1, l@.len() as int) =~= l@.skip(i + 1));
                    }
                    ms.push((a, b));
                },
                None => {
                    proof {
                        assert(parse_merges(sl, (k + 1) as nat) == Err::<Seq<(Seq<char>, Seq<char>)>, nat>(counted as nat));
                        lemma_parse_error_stays(sl, (k + 1) as nat, sl.len());
                    }
                    return Err(BpeError::BadMerges(counted));
                },
            }
        }
        k = k + 1;
    }
    Ok(ms)
}

} // verus!
