//! The record store codec: a line-based, human-editable text format for the
//! inventory collection, with a proved round trip from a collection through
//! its encoding back to the same collection.
//!
//! Layout: each item contributes five header lines (product, vendor, url,
//! stock flag, and a `matches:` marker) followed by one line per rule.
//! String payloads are escaped so that they stay on one line: a backslash
//! becomes a doubled backslash and a newline becomes `\n`.

use vstd::prelude::*;
use vstd::string::*;
use crate::model::{InventoryItem, ItemV, MatchRule, RuleV};
use crate::text::append_str;

verus! {

/// Escape of one payload character.
pub open spec fn esc_char(c: char) -> Seq<char> {
    if c == '\\' {
        seq!['\\', '\\']
    } else if c == '\n' {
        seq!['\\', 'n']
    } else {
        seq![c]
    }
}

/// Escape of a payload: the concatenation of its characters' escapes.
pub open spec fn esc(s: Seq<char>) -> Seq<char>
    decreases s.len(),
{
    if s.len() == 0 {
        Seq::empty()
    } else {
        esc_char(s[0]) + esc(s.drop_first())
    }
}

/// Unescape of a line payload; `None` when a backslash is followed by
/// neither a backslash nor an `n`.
pub open spec fn unesc(s: Seq<char>) -> Option<Seq<char>>
    decreases s.len(),
{
    if s.len() == 0 {
        Some(Seq::empty())
    } else if s[0] == '\\' {
        if s.len() >= 2 && (s[1] == '\\' || s[1] == 'n') {
            match unesc(s.skip(2)) {
                Some(t) => Some(seq![if s[1] == '\\' { '\\' } else { '\n' }] + t),
                None => None,
            }
        } else {
            None
        }
    } else {
        match unesc(s.drop_first()) {
            Some(t) => Some(seq![s[0]] + t),
            None => None,
        }
    }
}

/// A line never contains a newline character.
pub open spec fn line_ok(l: Seq<char>) -> bool {
    forall|i: int| 0 <= i < l.len() ==> l[i] != '\n'
}

/// Escaping removes every newline.
pub proof fn lemma_esc_line_ok(s: Seq<char>)
    ensures
        line_ok(esc(s)),
    decreases s.len(),
{
    if s.len() > 0 {
        lemma_esc_line_ok(s.drop_first());
        assert forall|i: int| 0 <= i < esc(s).len() implies esc(s)[i] != '\n' by {
            if i >= esc_char(s[0]).len() {
                assert(esc(s)[i] == esc(s.drop_first())[i - esc_char(s[0]).len()]);
            }
        }
    }
}

/// Unescaping inverts escaping.
pub proof fn lemma_unesc_esc(s: Seq<char>)
    ensures
        unesc(esc(s)) == Some(s),
    decreases s.len(),
{
    if s.len() > 0 {
        lemma_unesc_esc(s.drop_first());
        let e = esc(s);
        if s[0] == '\\' || s[0] == '\n' {
            assert(e[0] == '\\');
            assert(e.len() >= 2);
            assert(e.skip(2) =~= esc(s.drop_first()));
            assert(seq![s[0]] + s.drop_first() =~= s);
        } else {
            assert(e[0] == s[0]);
            assert(e.drop_first() =~= esc(s.drop_first()));
            assert(seq![s[0]] + s.drop_first() =~= s);
        }
    }
}

/// All lines of a list are newline-free.
pub open spec fn lines_ok(ls: Seq<Seq<char>>) -> bool {
    forall|i: int| 0 <= i < ls.len() ==> line_ok(#[trigger] ls[i])
}

/// The text of a list of lines: each line followed by a newline terminator.
pub open spec fn join_lines(ls: Seq<Seq<char>>) -> Seq<char>
    decreases ls.len(),
{
    if ls.len() == 0 {
        Seq::empty()
    } else {
        ls[0] + seq!['\n'] + join_lines(ls.drop_first())
    }
}

/// Index of the first newline, or the length when there is none.
pub open spec fn first_nl(s: Seq<char>) -> nat
    decreases s.len(),
{
    if s.len() == 0 {
        0
    } else if s[0] == '\n' {
        0
    } else {
        1 + first_nl(s.drop_first())
    }
}

/// Basic facts about `first_nl`.
pub proof fn lemma_first_nl(s: Seq<char>)
    ensures
        first_nl(s) <= s.len(),
        forall|i: int| 0 <= i < first_nl(s) ==> s[i] != '\n',
        first_nl(s) < s.len() ==> s[first_nl(s) as int] == '\n',
    decreases s.len(),
{
    if s.len() > 0 && s[0] != '\n' {
        lemma_first_nl(s.drop_first());
        assert forall|i: int| 0 <= i < first_nl(s) implies s[i] != '\n' by {
            if i > 0 {
                assert(s.drop_first()[i - 1] == s[i]);
            }
        }
    }
}

/// The lines of a text, each stripped of its newline terminator; `None`
/// when the text is nonempty and does not end with a newline.
pub open spec fn split_lines(s: Seq<char>) -> Option<Seq<Seq<char>>>
    decreases s.len(),
{
    if s.len() == 0 {
        Some(Seq::empty())
    } else {
        let n = first_nl(s) as int;
        if n >= s.len() {
            None
        } else {
            match split_lines(s.skip(n + 1)) {
                Some(r) => Some(seq![s.take(n)] + r),
                None => None,
            }
        }
    }
}

/// In a newline-free line followed by a terminator and more text, the first
/// newline is the terminator.
pub proof fn lemma_first_nl_concat(l: Seq<char>, t: Seq<char>)
    requires
        line_ok(l),
    ensures
        first_nl(l + seq!['\n'] + t) == l.len(),
    decreases l.len(),
{
    let s = l + seq!['\n'] + t;
    if l.len() == 0 {
        assert(s[0] == '\n');
    } else {
        assert(s[0] == l[0]);
        lemma_first_nl_concat(l.drop_first(), t);
        assert(line_ok(l.drop_first())) by {
            assert(forall|i: int| 0 <= i < l.drop_first().len() ==> l.drop_first()[i] == l[i + 1]);
        }
        assert(s.drop_first() =~= l.drop_first() + seq!['\n'] + t);
    }
}

/// Splitting inverts joining, for newline-free lines.
pub proof fn lemma_split_join(ls: Seq<Seq<char>>)
    requires
        lines_ok(ls),
    ensures
        split_lines(join_lines(ls)) == Some(ls),
    decreases ls.len(),
{
    if ls.len() > 0 {
        let s = join_lines(ls);
        let l0 = ls[0];
        let t = join_lines(ls.drop_first());
        assert(s == l0 + seq!['\n'] + t);
        lemma_first_nl_concat(l0, t);
        let n = l0.len() as int;
        assert(s.len() == n + 1 + t.len());
        assert(s.take(n) =~= l0);
        assert(s.skip(n + 1) =~= t);
        assert(lines_ok(ls.drop_first())) by {
            assert(forall|i: int| 0 <= i < ls.drop_first().len() ==> ls.drop_first()[i] == ls[i + 1]);
        }
        lemma_split_join(ls.drop_first());
        assert(seq![l0] + ls.drop_first() =~= ls);
    }
}

/// Tag opening an item: the product line.
pub open spec fn product_tag() -> Seq<char> {
    "- product: "@
}

/// Tag of the vendor line.
pub open spec fn vendor_tag() -> Seq<char> {
    "  vendor: "@
}

/// Tag of the url line.
pub open spec fn url_tag() -> Seq<char> {
    "  url: "@
}

/// The stock line of an item that is in stock.
pub open spec fn stock_true_line() -> Seq<char> {
    "  inStock: true"@
}

/// The stock line of an item that is out of stock.
pub open spec fn stock_false_line() -> Seq<char> {
    "  inStock: false"@
}

/// The marker line that opens an item's rule list.
pub open spec fn matches_line() -> Seq<char> {
    "  matches:"@
}

/// The shared prefix of every rule line.
pub open spec fn rule_marker() -> Seq<char> {
    "    - "@
}

/// Tag of a regex rule line.
pub open spec fn regex_tag() -> Seq<char> {
    "    - regex: "@
}

/// Tag of a negated-regex rule line.
pub open spec fn negated_regex_tag() -> Seq<char> {
    "    - negatedRegex: "@
}

/// Tag of a containment rule line.
pub open spec fn contains_tag() -> Seq<char> {
    "    - contains: "@
}

/// Tag of a negated containment rule line.
pub open spec fn does_not_contain_tag() -> Seq<char> {
    "    - doesNotContain: "@
}

/// The line begins with the given prefix.
pub open spec fn begins_with(l: Seq<char>, p: Seq<char>) -> bool {
    l.len() >= p.len() && l.take(p.len() as int) == p
}

/// The unescaped payload of a tagged line, when the line carries the tag.
pub open spec fn tag_payload(l: Seq<char>, tag: Seq<char>) -> Option<Seq<char>> {
    if begins_with(l, tag) {
        unesc(l.skip(tag.len() as int))
    } else {
        None
    }
}

/// The stock line of an item.
pub open spec fn stock_line(f: bool) -> Seq<char> {
    if f {
        stock_true_line()
    } else {
        stock_false_line()
    }
}

/// The line encoding one rule.
pub open spec fn rule_line(r: RuleV) -> Seq<char> {
    match r {
        RuleV::Regex(p) => regex_tag() + esc(p),
        RuleV::NegatedRegex(p) => negated_regex_tag() + esc(p),
        RuleV::Contains(p) => contains_tag() + esc(p),
        RuleV::DoesNotContain(p) => does_not_contain_tag() + esc(p),
    }
}

/// The five header lines of one item.
pub open spec fn item_header(it: ItemV) -> Seq<Seq<char>> {
    seq![
        product_tag() + esc(it.product),
        vendor_tag() + esc(it.vendor),
        url_tag() + esc(it.url),
        stock_line(it.in_stock),
        matches_line(),
    ]
}

/// The lines encoding a rule list, one per rule.
pub open spec fn rule_lines(rs: Seq<RuleV>) -> Seq<Seq<char>>
    decreases rs.len(),
{
    if rs.len() == 0 {
        Seq::empty()
    } else {
        seq![rule_line(rs[0])] + rule_lines(rs.drop_first())
    }
}

/// The lines encoding one item: its header followed by its rule lines.
pub open spec fn item_lines(it: ItemV) -> Seq<Seq<char>> {
    item_header(it) + rule_lines(it.matches)
}

/// The lines encoding a collection, item after item.
pub open spec fn items_lines(cv: Seq<ItemV>) -> Seq<Seq<char>>
    decreases cv.len(),
{
    if cv.len() == 0 {
        Seq::empty()
    } else {
        item_lines(cv[0]) + items_lines(cv.drop_first())
    }
}

/// The full encoding of a collection.
pub open spec fn encode(cv: Seq<ItemV>) -> Seq<char> {
    join_lines(items_lines(cv))
}

/// A line is a rule line when it begins with the rule marker.
pub open spec fn is_rule_line(l: Seq<char>) -> bool {
    begins_with(l, rule_marker())
}

/// The rule encoded by one rule line, tried tag by tag.
pub open spec fn decode_rule_line(l: Seq<char>) -> Option<RuleV> {
    if begins_with(l, regex_tag()) {
        match tag_payload(l, regex_tag()) {
            Some(p) => Some(RuleV::Regex(p)),
            None => None,
        }
    } else if begins_with(l, negated_regex_tag()) {
        match tag_payload(l, negated_regex_tag()) {
            Some(p) => Some(RuleV::NegatedRegex(p)),
            None => None,
        }
    } else if begins_with(l, contains_tag()) {
        match tag_payload(l, contains_tag()) {
            Some(p) => Some(RuleV::Contains(p)),
            None => None,
        }
    } else if begins_with(l, does_not_contain_tag()) {
        match tag_payload(l, does_not_contain_tag()) {
            Some(p) => Some(RuleV::DoesNotContain(p)),
            None => None,
        }
    } else {
        None
    }
}

/// The collection decoded from a list of lines: `None` when the lines are
/// not an encoding.
pub open spec fn decode_items(ls: Seq<Seq<char>>) -> Option<Seq<ItemV>>
    decreases ls.len(), 0int,
{
    if ls.len() == 0 {
        Some(Seq::empty())
    } else if ls.len() < 5 {
        None
    } else {
        let p = tag_payload(ls[0], product_tag());
        let v = tag_payload(ls[1], vendor_tag());
        let u = tag_payload(ls[2], url_tag());
        let f = if ls[3] == stock_true_line() {
            Some(true)
        } else if ls[3] == stock_false_line() {
            Some(false)
        } else {
            None
        };
        if p is Some && v is Some && u is Some && f is Some && ls[4] == matches_line() {
            match decode_tail(ls.skip(5)) {
                Some((rs, items)) => Some(
                    seq![ItemV {
                        product: p->0,
                        vendor: v->0,
                        url: u->0,
                        in_stock: f->0,
                        matches: rs,
                    }] + items,
                ),
                None => None,
            }
        } else {
            None
        }
    }
}

/// The leading run of rule lines, decoded, together with the items decoded
/// from the lines after the run.
pub open spec fn decode_tail(ls: Seq<Seq<char>>) -> Option<(Seq<RuleV>, Seq<ItemV>)>
    decreases ls.len(), 1int,
{
    if ls.len() > 0 && is_rule_line(ls[0]) {
        match (decode_rule_line(ls[0]), decode_tail(ls.drop_first())) {
            (Some(r), Some((rs, items))) => Some((seq![r] + rs, items)),
            _ => None,
        }
    } else {
        match decode_items(ls) {
            Some(items) => Some((Seq::empty(), items)),
            None => None,
        }
    }
}

/// Concatenating newline-free sequences keeps them newline-free.
proof fn lemma_line_ok_concat(a: Seq<char>, b: Seq<char>)
    requires
        line_ok(a),
        line_ok(b),
    ensures
        line_ok(a + b),
{
    assert forall|i: int| 0 <= i < (a + b).len() implies (a + b)[i] != '\n' by {
        if i < a.len() {
            assert((a + b)[i] == a[i]);
        } else {
            assert((a + b)[i] == b[i - a.len()]);
        }
    }
}

/// Shared facts about the fixed tags: their lengths, the characters that
/// tell them apart, and that none contains a newline.
proof fn tag_facts()
    ensures
        line_ok(product_tag()),
        line_ok(vendor_tag()),
        line_ok(url_tag()),
        line_ok(stock_true_line()),
        line_ok(stock_false_line()),
        line_ok(matches_line()),
        line_ok(regex_tag()),
        line_ok(negated_regex_tag()),
        line_ok(contains_tag()),
        line_ok(does_not_contain_tag()),
        product_tag().len() == 11,
        vendor_tag().len() == 10,
        url_tag().len() == 7,
        stock_true_line().len() == 15,
        stock_false_line().len() == 16,
        matches_line().len() == 10,
        rule_marker().len() == 6,
        regex_tag().len() == 13,
        negated_regex_tag().len() == 20,
        contains_tag().len() == 16,
        does_not_contain_tag().len() == 22,
        product_tag()[0] == '-',
        rule_marker()[0] == ' ',
        regex_tag()[6] == 'r',
        negated_regex_tag()[6] == 'n',
        contains_tag()[6] == 'c',
        does_not_contain_tag()[6] == 'd',
        regex_tag().take(6) == rule_marker(),
        negated_regex_tag().take(6) == rule_marker(),
        contains_tag().take(6) == rule_marker(),
        does_not_contain_tag().take(6) == rule_marker(),
{
    reveal_strlit("- product: ");
    reveal_strlit("  vendor: ");
    reveal_strlit("  url: ");
    reveal_strlit("  inStock: true");
    reveal_strlit("  inStock: false");
    reveal_strlit("  matches:");
    reveal_strlit("    - ");
    reveal_strlit("    - regex: ");
    reveal_strlit("    - negatedRegex: ");
    reveal_strlit("    - contains: ");
    reveal_strlit("    - doesNotContain: ");
    assert(regex_tag().take(6) =~= rule_marker());
    assert(negated_regex_tag().take(6) =~= rule_marker());
    assert(contains_tag().take(6) =~= rule_marker());
    assert(does_not_contain_tag().take(6) =~= rule_marker());
}

/// A tagged payload line decodes back to its payload.
proof fn lemma_tag_payload(tag: Seq<char>, p: Seq<char>)
    ensures
        tag_payload(tag + esc(p), tag) == Some(p),
        begins_with(tag + esc(p), tag),
{
    let l = tag + esc(p);
    assert(l.take(tag.len() as int) =~= tag);
    assert(l.skip(tag.len() as int) =~= esc(p));
    lemma_unesc_esc(p);
}

/// A rule line is newline-free, carries the rule marker, and decodes back
/// to its rule.
proof fn lemma_rule_line_facts(r: RuleV)
    ensures
        line_ok(rule_line(r)),
        is_rule_line(rule_line(r)),
        decode_rule_line(rule_line(r)) == Some(r),
{
    tag_facts();
    let l = rule_line(r);
    match r {
        RuleV::Regex(p) => {
            lemma_esc_line_ok(p);
            lemma_line_ok_concat(regex_tag(), esc(p));
            assert(l.take(6) =~= regex_tag().take(6));
            lemma_tag_payload(regex_tag(), p);
        },
        RuleV::NegatedRegex(p) => {
            lemma_esc_line_ok(p);
            lemma_line_ok_concat(negated_regex_tag(), esc(p));
            assert(l.take(6) =~= negated_regex_tag().take(6));
            assert(l[6] == 'n');
            if begins_with(l, regex_tag()) {
                assert(l.take(regex_tag().len() as int)[6] == l[6]);
                assert(false);
            }
            lemma_tag_payload(negated_regex_tag(), p);
        },
        RuleV::Contains(p) => {
            lemma_esc_line_ok(p);
            lemma_line_ok_concat(contains_tag(), esc(p));
            assert(l.take(6) =~= contains_tag().take(6));
            assert(l[6] == 'c');
            if begins_with(l, regex_tag()) {
                assert(l.take(regex_tag().len() as int)[6] == l[6]);
                assert(false);
            }
            if begins_with(l, negated_regex_tag()) {
                assert(l.take(negated_regex_tag().len() as int)[6] == l[6]);
                assert(false);
            }
            lemma_tag_payload(contains_tag(), p);
        },
        RuleV::DoesNotContain(p) => {
            lemma_esc_line_ok(p);
            lemma_line_ok_concat(does_not_contain_tag(), esc(p));
            assert(l.take(6) =~= does_not_contain_tag().take(6));
            assert(l[6] == 'd');
            if begins_with(l, regex_tag()) {
                assert(l.take(regex_tag().len() as int)[6] == l[6]);
                assert(false);
            }
            if begins_with(l, negated_regex_tag()) {
                assert(l.take(negated_regex_tag().len() as int)[6] == l[6]);
                assert(false);
            }
            if begins_with(l, contains_tag()) {
                assert(l.take(contains_tag().len() as int)[6] == l[6]);
                assert(false);
            }
            lemma_tag_payload(does_not_contain_tag(), p);
        },
    }
}

/// The header lines of an item are newline-free, the product line is not a
/// rule line, and each header line decodes back to its field.
proof fn lemma_header_facts(it: ItemV)
    ensures
        lines_ok(item_header(it)),
        !is_rule_line(item_header(it)[0]),
        tag_payload(item_header(it)[0], product_tag()) == Some(it.product),
        tag_payload(item_header(it)[1], vendor_tag()) == Some(it.vendor),
        tag_payload(item_header(it)[2], url_tag()) == Some(it.url),
        item_header(it)[3] == stock_true_line() <==> it.in_stock,
        item_header(it)[3] == stock_false_line() <==> !it.in_stock,
        item_header(it)[4] == matches_line(),
{
    tag_facts();
    let h = item_header(it);
    lemma_esc_line_ok(it.product);
    lemma_esc_line_ok(it.vendor);
    lemma_esc_line_ok(it.url);
    lemma_line_ok_concat(product_tag(), esc(it.product));
    lemma_line_ok_concat(vendor_tag(), esc(it.vendor));
    lemma_line_ok_concat(url_tag(), esc(it.url));
    lemma_tag_payload(product_tag(), it.product);
    lemma_tag_payload(vendor_tag(), it.vendor);
    lemma_tag_payload(url_tag(), it.url);
    if is_rule_line(h[0]) {
        assert(h[0].take(6)[0] == h[0][0]);
        assert(h[0][0] == '-');
        assert(false);
    }
    assert(stock_true_line() != stock_false_line()) by {
        assert(stock_true_line().len() != stock_false_line().len());
    }
    assert forall|i: int| 0 <= i < h.len() implies line_ok(#[trigger] h[i]) by {}
}

/// The lines of an encoded collection are newline-free.
proof fn lemma_items_lines_ok(cv: Seq<ItemV>)
    ensures
        lines_ok(items_lines(cv)),
    decreases cv.len(),
{
    if cv.len() > 0 {
        lemma_items_lines_ok(cv.drop_first());
        lemma_header_facts(cv[0]);
        assert forall|i: int| 0 <= i < items_lines(cv).len()
            implies line_ok(#[trigger] items_lines(cv)[i]) by {
            let hl = item_header(cv[0]);
            let rl = rule_lines(cv[0].matches);
            let rest = items_lines(cv.drop_first());
            assert(items_lines(cv) == (hl + rl) + rest);
            if i < 5 {
                assert(items_lines(cv)[i] == hl[i]);
            } else if i < 5 + rl.len() {
                assert(items_lines(cv)[i] == rl[i - 5]);
                lemma_rule_lines_index(cv[0].matches, i - 5);
            } else {
                assert(items_lines(cv)[i] == rest[i - 5 - rl.len()]);
            }
        }
    }
}

/// The rule lines of a list have one line per rule, each the encoding of
/// the rule at its position.
proof fn lemma_rule_lines_index(rs: Seq<RuleV>, i: int)
    requires
        0 <= i < rule_lines(rs).len(),
    ensures
        rule_lines(rs).len() == rs.len(),
        rule_lines(rs)[i] == rule_line(rs[i]),
        line_ok(rule_lines(rs)[i]),
    decreases rs.len(),
{
    lemma_rule_lines_len(rs);
    if i > 0 {
        lemma_rule_lines_index(rs.drop_first(), i - 1);
        assert(rule_lines(rs)[i] == rule_lines(rs.drop_first())[i - 1]);
    }
    lemma_rule_line_facts(rs[i]);
}

/// A rule list and its encoding have the same length.
proof fn lemma_rule_lines_len(rs: Seq<RuleV>)
    ensures
        rule_lines(rs).len() == rs.len(),
    decreases rs.len(),
{
    if rs.len() > 0 {
        lemma_rule_lines_len(rs.drop_first());
    }
}

/// Decoding inverts encoding at the line level.
proof fn lemma_decode_encode(cv: Seq<ItemV>)
    ensures
        decode_items(items_lines(cv)) == Some(cv),
    decreases cv.len(), 0int, 0int,
{
    if cv.len() > 0 {
        let it = cv[0];
        let rest = cv.drop_first();
        let hl = item_header(it);
        let rl = rule_lines(it.matches);
        let tail = items_lines(rest);
        let ls = items_lines(cv);
        assert(ls == (hl + rl) + tail);
        lemma_rule_lines_len(it.matches);
        lemma_header_facts(it);
        assert(ls.len() >= 5);
        assert(ls[0] == hl[0]);
        assert(ls[1] == hl[1]);
        assert(ls[2] == hl[2]);
        assert(ls[3] == hl[3]);
        assert(ls[4] == hl[4]);
        assert(ls.skip(5) =~= rl + tail);
        lemma_decode_tail(it.matches, rest);
        let rebuilt = ItemV {
            product: it.product,
            vendor: it.vendor,
            url: it.url,
            in_stock: it.in_stock,
            matches: it.matches,
        };
        assert(rebuilt =~= it);
        assert(seq![it] + rest =~= cv);
    }
}

/// Decoding a run of rule lines followed by more items yields the rules and
/// the items.
proof fn lemma_decode_tail(rs: Seq<RuleV>, cv: Seq<ItemV>)
    ensures
        decode_tail(rule_lines(rs) + items_lines(cv)) == Some((rs, cv)),
    decreases cv.len(), 1int, rs.len(),
{
    let ls = rule_lines(rs) + items_lines(cv);
    if rs.len() == 0 {
        assert(ls =~= items_lines(cv));
        if cv.len() == 0 {
            assert(ls.len() == 0);
            assert(rs =~= Seq::<RuleV>::empty());
        } else {
            lemma_header_facts(cv[0]);
            assert(items_lines(cv) == (item_header(cv[0]) + rule_lines(cv[0].matches)) + items_lines(cv.drop_first()));
            assert(ls[0] == item_header(cv[0])[0]);
            assert(!is_rule_line(ls[0]));
            lemma_decode_encode(cv);
            assert(rs =~= Seq::<RuleV>::empty());
        }
    } else {
        lemma_rule_lines_len(rs);
        assert(ls[0] == rule_lines(rs)[0]);
        assert(rule_lines(rs)[0] == rule_line(rs[0]));
        lemma_rule_line_facts(rs[0]);
        assert(ls.drop_first() =~= rule_lines(rs.drop_first()) + items_lines(cv));
        lemma_decode_tail(rs.drop_first(), cv);
        assert(seq![rs[0]] + rs.drop_first() =~= rs);
    }
}

/// Round trip: decoding an encoded collection yields the collection, for
/// every collection. The persistence format is lossless.
pub proof fn lemma_round_trip(cv: Seq<ItemV>)
    ensures
        full_decode(encode(cv)) == Some(cv),
{
    lemma_items_lines_ok(cv);
    lemma_split_join(items_lines(cv));
    lemma_decode_encode(cv);
}

/// The collection decoded from a whole text.
pub open spec fn full_decode(s: Seq<char>) -> Option<Seq<ItemV>> {
    match split_lines(s) {
        Some(ls) => decode_items(ls),
        None => None,
    }
}

/// Escaping one more character appends that character's escape.
proof fn lemma_esc_snoc(a: Seq<char>, c: char)
    ensures
        esc(a.push(c)) == esc(a) + esc_char(c),
    decreases a.len(),
{
    if a.len() == 0 {
        assert(a.push(c)[0] == c);
        assert(a.push(c).drop_first() =~= Seq::<char>::empty());
        assert(esc(Seq::<char>::empty()) == Seq::<char>::empty());
        assert(esc(a.push(c)) =~= esc(a) + esc_char(c));
    } else {
        assert(a.push(c)[0] == a[0]);
        assert(a.push(c).drop_first() =~= a.drop_first().push(c));
        lemma_esc_snoc(a.drop_first(), c);
        assert(esc_char(a[0]) + (esc(a.drop_first()) + esc_char(c)) =~= (esc_char(a[0])
            + esc(a.drop_first())) + esc_char(c));
    }
}

/// Joining one more line appends the line and its terminator.
proof fn lemma_join_snoc(ls: Seq<Seq<char>>, l: Seq<char>)
    ensures
        join_lines(ls.push(l)) == join_lines(ls) + l + seq!['\n'],
    decreases ls.len(),
{
    if ls.len() == 0 {
        assert(ls.push(l)[0] == l);
        assert(ls.push(l).drop_first() =~= Seq::<Seq<char>>::empty());
        assert(join_lines(Seq::<Seq<char>>::empty()) == Seq::<char>::empty());
        assert(join_lines(ls.push(l)) =~= join_lines(ls) + l + seq!['\n']);
    } else {
        assert(ls.push(l)[0] == ls[0]);
        assert(ls.push(l).drop_first() =~= ls.drop_first().push(l));
        lemma_join_snoc(ls.drop_first(), l);
        assert(join_lines(ls.push(l)) =~= join_lines(ls) + l + seq!['\n']);
    }
}

/// Encoding one more rule appends that rule's line.
proof fn lemma_rule_lines_snoc(rs: Seq<RuleV>, r: RuleV)
    ensures
        rule_lines(rs.push(r)) == rule_lines(rs) + seq![rule_line(r)],
    decreases rs.len(),
{
    if rs.len() == 0 {
        assert(rs.push(r)[0] == r);
        assert(rs.push(r).drop_first() =~= Seq::<RuleV>::empty());
        assert(rule_lines(Seq::<RuleV>::empty()) == Seq::<Seq<char>>::empty());
        assert(rule_lines(rs.push(r)) =~= rule_lines(rs) + seq![rule_line(r)]);
    } else {
        assert(rs.push(r)[0] == rs[0]);
        assert(rs.push(r).drop_first() =~= rs.drop_first().push(r));
        lemma_rule_lines_snoc(rs.drop_first(), r);
        assert(rule_lines(rs.push(r)) =~= rule_lines(rs) + seq![rule_line(r)]);
    }
}

/// Encoding one more item appends that item's lines.
proof fn lemma_items_lines_snoc(cv: Seq<ItemV>, it: ItemV)
    ensures
        items_lines(cv.push(it)) == items_lines(cv) + item_lines(it),
    decreases cv.len(),
{
    if cv.len() == 0 {
        assert(cv.push(it)[0] == it);
        assert(cv.push(it).drop_first() =~= Seq::<ItemV>::empty());
        assert(items_lines(Seq::<ItemV>::empty()) == Seq::<Seq<char>>::empty());
        assert(items_lines(cv.push(it)) =~= items_lines(cv) + item_lines(it));
    } else {
        assert(cv.push(it)[0] == cv[0]);
        assert(cv.push(it).drop_first() =~= cv.drop_first().push(it));
        lemma_items_lines_snoc(cv.drop_first(), it);
        assert(items_lines(cv.push(it)) =~= items_lines(cv) + item_lines(it));
    }
}

/// Appends the escape of a payload to a character vector.
fn push_escaped(out: &mut Vec<char>, s: &str)
    ensures
        final(out)@ == old(out)@ + esc(s@),
{
    let n = s.unicode_len();
    let mut i: usize = 0;
    proof {
        assert(esc(s@.take(0)) =~= Seq::<char>::empty());
        assert(out@ =~= old(out)@ + esc(s@.take(0)));
    }
    while i < n
        invariant
            n == s@.len(),
            i <= n,
            out@ == old(out)@ + esc(s@.take(i as int)),
        decreases n - i,
    {
        let c = s.get_char(i);
        proof {
            lemma_esc_snoc(s@.take(i as int), c);
            assert(s@.take(i as int).push(c) =~= s@.take(i as int + 1));
        }
        if c == '\\' {
            out.push('\\');
            out.push('\\');
        } else if c == '\n' {
            out.push('\\');
            out.push('n');
        } else {
            out.push(c);
        }
        proof {
            assert(out@ =~= old(out)@ + esc(s@.take(i as int)) + esc_char(c));
            assert(out@ =~= old(out)@ + esc(s@.take(i as int + 1)));
        }
        i = i + 1;
    }
    proof {
        assert(s@.take(n as int) =~= s@);
    }
}

/// Appends a line and its terminator to the output text.
fn push_line(out: &mut Vec<char>, line: Vec<char>)
    ensures
        final(out)@ == old(out)@ + line@ + seq!['\n'],
{
    let mut rest = line;
    let ghost lv = rest@;
    out.append(&mut rest);
    out.push('\n');
    proof {
        assert(out@ =~= old(out)@ + lv + seq!['\n']);
    }
}

/// Serializes a collection into the persistence format.
pub fn save_items(items: &Vec<InventoryItem>) -> (s: String)
    ensures
        s@ == encode(crate::model::items_v(items@)),
{
    let ghost cv = crate::model::items_v(items@);
    let mut out: Vec<char> = Vec::new();
    let ghost mut glines: Seq<Seq<char>> = Seq::empty();
    let mut i: usize = 0;
    proof {
        assert(items_lines(cv.take(0)) =~= Seq::<Seq<char>>::empty());
    }
    while i < items.len()
        invariant
            i <= items@.len(),
            cv == crate::model::items_v(items@),
            cv.len() == items@.len(),
            glines == items_lines(cv.take(i as int)),
            out@ == join_lines(glines),
        decreases items@.len() - i,
    {
        let it = &items[i];
        let ghost itv = cv[i as int];
        proof {
            assert(itv == crate::model::item_v(items@[i as int]));
        }
        let ghost base = glines;

        let mut line: Vec<char> = Vec::new();
        append_str(&mut line, "- product: ");
        push_escaped(&mut line, it.product.as_str());
        proof {
            lemma_join_snoc(glines, line@);
            glines = glines.push(line@);
        }
        push_line(&mut out, line);

        let mut line: Vec<char> = Vec::new();
        append_str(&mut line, "  vendor: ");
        push_escaped(&mut line, it.vendor.as_str());
        proof {
            lemma_join_snoc(glines, line@);
            glines = glines.push(line@);
        }
        push_line(&mut out, line);

        let mut line: Vec<char> = Vec::new();
        append_str(&mut line, "  url: ");
        push_escaped(&mut line, it.url.as_str());
        proof {
            lemma_join_snoc(glines, line@);
            glines = glines.push(line@);
        }
        push_line(&mut out, line);

        let mut line: Vec<char> = Vec::new();
        if it.in_stock {
            append_str(&mut line, "  inStock: true");
        } else {
            append_str(&mut line, "  inStock: false");
        }
        proof {
            assert(line@ == stock_line(itv.in_stock));
            lemma_join_snoc(glines, line@);
            glines = glines.push(line@);
        }
        push_line(&mut out, line);

        let mut line: Vec<char> = Vec::new();
        append_str(&mut line, "  matches:");
        proof {
            lemma_join_snoc(glines, line@);
            glines = glines.push(line@);
        }
        push_line(&mut out, line);

        proof {
            assert(glines =~= base + item_header(itv));
        }

        let rules = &it.matches;
        let mut j: usize = 0;
        proof {
            assert(rule_lines(itv.matches.take(0)) =~= Seq::<Seq<char>>::empty());
            assert(glines =~= base + item_header(itv) + rule_lines(itv.matches.take(0)));
        }
        while j < rules.len()
            invariant
                j <= rules@.len(),
                itv.matches == crate::model::rules_v_seq(rules@),
                itv.matches.len() == rules@.len(),
                glines == base + item_header(itv) + rule_lines(itv.matches.take(j as int)),
                out@ == join_lines(glines),
            decreases rules@.len() - j,
        {
            let ghost rv = itv.matches[j as int];
            proof {
                assert(rv == crate::model::rule_v(rules@[j as int]));
            }
            let mut line: Vec<char> = Vec::new();
            match &rules[j] {
                crate::model::MatchRule::Regex(p) => {
                    append_str(&mut line, "    - regex: ");
                    push_escaped(&mut line, p.as_str());
                },
                crate::model::MatchRule::NegatedRegex(p) => {
                    append_str(&mut line, "    - negatedRegex: ");
                    push_escaped(&mut line, p.as_str());
                },
                crate::model::MatchRule::Contains(p) => {
                    append_str(&mut line, "    - contains: ");
                    push_escaped(&mut line, p.as_str());
                },
                crate::model::MatchRule::DoesNotContain(p) => {
                    append_str(&mut line, "    - doesNotContain: ");
                    push_escaped(&mut line, p.as_str());
                },
            }
            proof {
                assert(line@ == rule_line(rv));
                lemma_join_snoc(glines, line@);
                lemma_rule_lines_snoc(itv.matches.take(j as int), rv);
                assert(itv.matches.take(j as int).push(rv) =~= itv.matches.take(j as int + 1));
                glines = glines.push(line@);
                assert(glines =~= base + item_header(itv) + rule_lines(itv.matches.take(
                    j as int + 1)));
            }
            push_line(&mut out, line);
            j = j + 1;
        }
        proof {
            assert(itv.matches.take(rules@.len() as int) =~= itv.matches);
            assert(glines =~= base + item_lines(itv));
            lemma_items_lines_snoc(cv.take(i as int), itv);
            assert(cv.take(i as int).push(itv) =~= cv.take(i as int + 1));
        }
        i = i + 1;
    }
    proof {
        assert(cv.take(items@.len() as int) =~= cv);
    }
    crate::text::chars_to_string(&out)
}

/// Why a persisted text was rejected.
#[derive(Clone, Copy, Debug, PartialEq, Eq, Structural)]
pub enum ParseError {
    /// The text is not an encoding of any collection.
    Syntax,
    /// The text decodes, but some rule carries a pattern the regex engine
    /// rejects.
    BadPattern,
}

/// A newline-free sequence has no first newline before its end.
proof fn lemma_first_nl_full(l: Seq<char>)
    requires
        line_ok(l),
    ensures
        first_nl(l) == l.len(),
{
    lemma_first_nl(l);
    if first_nl(l) < l.len() {
        assert(l[first_nl(l) as int] == '\n');
        assert(false);
    }
}

/// The views of a list of line vectors.
pub open spec fn lines_view(ls: Seq<Vec<char>>) -> Seq<Seq<char>> {
    ls.map_values(|l: Vec<char>| l@)
}

/// Splits a text into its newline-terminated lines; `None` when the text is
/// nonempty and does not end with a newline.
fn split_into_lines(v: &Vec<char>) -> (r: Option<Vec<Vec<char>>>)
    ensures
        match r {
            Some(ls) => split_lines(v@) == Some(lines_view(ls@)),
            None => split_lines(v@) is None,
        },
{
    let mut out: Vec<Vec<char>> = Vec::new();
    let mut cur: Vec<char> = Vec::new();
    let mut k: usize = 0;
    let ghost mut start: int = 0;
    proof {
        assert(v@.skip(0) =~= v@);
        assert(lines_view(out@) =~= Seq::<Seq<char>>::empty());
        if split_lines(v@) is Some {
            assert(lines_view(out@) + split_lines(v@)->0 =~= split_lines(v@)->0);
        }
    }
    while k < v.len()
        invariant
            0 <= start <= k <= v@.len(),
            cur@ == v@.subrange(start, k as int),
            line_ok(cur@),
            (match split_lines(v@.skip(start)) {
                Some(t) => split_lines(v@) == Some(lines_view(out@) + t),
                None => split_lines(v@) is None,
            }),
        decreases v@.len() - k,
    {
        let c = v[k];
        if c == '\n' {
            let ghost curv = cur@;
            let ghost pre_lv = lines_view(out@);
            out.push(cur);
            cur = Vec::new();
            proof {
                assert(v@.skip(start) =~= curv + seq!['\n'] + v@.skip(k as int + 1));
                lemma_first_nl_concat(curv, v@.skip(k as int + 1));
                assert(v@.skip(start).take(curv.len() as int) =~= curv);
                assert(v@.skip(start).skip(curv.len() as int + 1) =~= v@.skip(k as int + 1));
                assert(lines_view(out@) =~= pre_lv.push(curv));
                if split_lines(v@.skip(k as int + 1)) is Some {
                    let t2 = split_lines(v@.skip(k as int + 1))->0;
                    assert(split_lines(v@.skip(start)) == Some(seq![curv] + t2));
                    assert(pre_lv + (seq![curv] + t2) =~= lines_view(out@) + t2);
                } else {
                    assert(split_lines(v@.skip(start)) is None);
                }
                start = k as int + 1;
                assert(cur@ =~= v@.subrange(start, k as int + 1));
            }
        } else {
            let ghost pre_cur = cur@;
            cur.push(c);
            proof {
                assert(cur@ =~= v@.subrange(start, k as int + 1));
                assert forall|q: int| 0 <= q < cur@.len() implies cur@[q] != '\n' by {
                    if q < pre_cur.len() {
                        assert(cur@[q] == pre_cur[q]);
                    }
                }
            }
        }
        k = k + 1;
    }
    if cur.len() > 0 {
        proof {
            assert(v@.skip(start) =~= cur@);
            lemma_first_nl_full(cur@);
            assert(split_lines(v@.skip(start)) is None);
        }
        return None;
    }
    proof {
        assert(v@.skip(start) =~= Seq::<char>::empty());
        assert(split_lines(Seq::<char>::empty()) == Some(Seq::<Seq<char>>::empty()));
        assert(lines_view(out@) + Seq::<Seq<char>>::empty() =~= lines_view(out@));
    }
    Some(out)
}

/// Whether a line begins with the given prefix.
fn line_begins_with(l: &Vec<char>, p: &str) -> (b: bool)
    ensures
        b == begins_with(l@, p@),
{
    let m = p.unicode_len();
    if l.len() < m {
        return false;
    }
    let mut i: usize = 0;
    while i < m
        invariant
            m == p@.len(),
            m <= l@.len(),
            i <= m,
            forall|k: int| 0 <= k < i ==> l@[k] == p@[k],
        decreases m - i,
    {
        if l[i] != p.get_char(i) {
            proof {
                if begins_with(l@, p@) {
                    assert(l@.take(m as int)[i as int] == l@[i as int]);
                }
            }
            return false;
        }
        i = i + 1;
    }
    proof {
        assert(l@.take(m as int) =~= p@);
    }
    true
}

/// Whether a line is exactly the given text.
fn line_is(l: &Vec<char>, p: &str) -> (b: bool)
    ensures
        b == (l@ == p@),
{
    let m = p.unicode_len();
    if l.len() != m {
        return false;
    }
    let mut i: usize = 0;
    while i < m
        invariant
            m == p@.len(),
            m == l@.len(),
            i <= m,
            forall|k: int| 0 <= k < i ==> l@[k] == p@[k],
        decreases m - i,
    {
        if l[i] != p.get_char(i) {
            return false;
        }
        i = i + 1;
    }
    proof {
        assert(l@ =~= p@);
    }
    true
}

/// Unescapes the payload of a line after the given position.
fn unesc_exec(l: &Vec<char>, from: usize) -> (r: Option<Vec<char>>)
    requires
        from <= l@.len(),
    ensures
        match r {
            Some(v) => unesc(l@.skip(from as int)) == Some(v@),
            None => unesc(l@.skip(from as int)) is None,
        },
{
    let mut out: Vec<char> = Vec::new();
    let mut j = from;
    while j < l.len()
        invariant
            from <= j <= l@.len(),
            (match unesc(l@.skip(j as int)) {
                Some(t) => unesc(l@.skip(from as int)) == Some(out@ + t),
                None => unesc(l@.skip(from as int)) is None,
            }),
        decreases l@.len() - j,
    {
        let ghost sj = l@.skip(j as int);
        let ghost pre_out = out@;
        proof {
            assert(sj[0] == l@[j as int]);
        }
        let c = l[j];
        if c == '\\' {
            if j + 1 >= l.len() {
                proof {
                    assert(sj.len() == 1);
                    assert(unesc(sj) is None);
                }
                return None;
            }
            let d = l[j + 1];
            proof {
                assert(sj[1] == l@[j as int + 1]);
            }
            if d == '\\' || d == 'n' {
                let decoded = if d == '\\' { '\\' } else { '\n' };
                out.push(decoded);
                proof {
                    assert(sj.skip(2) =~= l@.skip(j as int + 2));
                    if unesc(l@.skip(j as int + 2)) is Some {
                        let t2 = unesc(l@.skip(j as int + 2))->0;
                        assert(unesc(sj) == Some(seq![decoded] + t2));
                        assert(pre_out + (seq![decoded] + t2) =~= out@ + t2);
                    } else {
                        assert(unesc(sj) is None);
                    }
                }
                j = j + 2;
            } else {
                proof {
                    assert(unesc(sj) is None);
                }
                return None;
            }
        } else {
            out.push(c);
            proof {
                assert(sj.drop_first() =~= l@.skip(j as int + 1));
                if unesc(l@.skip(j as int + 1)) is Some {
                    let t2 = unesc(l@.skip(j as int + 1))->0;
                    assert(unesc(sj) == Some(seq![c] + t2));
                    assert(pre_out + (seq![c] + t2) =~= out@ + t2);
                } else {
                    assert(unesc(sj) is None);
                }
            }
            j = j + 1;
        }
    }
    proof {
        assert(l@.skip(j as int) =~= Seq::<char>::empty());
        assert(unesc(Seq::<char>::empty()) == Some(Seq::<char>::empty()));
        assert(out@ + Seq::<char>::empty() =~= out@);
    }
    Some(out)
}

/// Parses a tagged payload line.
fn parse_tagged(l: &Vec<char>, tag: &str) -> (r: Option<String>)
    ensures
        match r {
            Some(s) => tag_payload(l@, tag@) == Some(s@),
            None => tag_payload(l@, tag@) is None,
        },
{
    if !line_begins_with(l, tag) {
        return None;
    }
    let m = tag.unicode_len();
    match unesc_exec(l, m) {
        Some(v) => Some(crate::text::chars_to_string(&v)),
        None => None,
    }
}

/// Parses one rule line.
fn parse_rule_line(l: &Vec<char>) -> (r: Option<MatchRule>)
    ensures
        match r {
            Some(m) => decode_rule_line(l@) == Some(crate::model::rule_v(m)),
            None => decode_rule_line(l@) is None,
        },
{
    if line_begins_with(l, "    - regex: ") {
        match parse_tagged(l, "    - regex: ") {
            Some(p) => Some(MatchRule::Regex(p)),
            None => None,
        }
    } else if line_begins_with(l, "    - negatedRegex: ") {
        match parse_tagged(l, "    - negatedRegex: ") {
            Some(p) => Some(MatchRule::NegatedRegex(p)),
            None => None,
        }
    } else if line_begins_with(l, "    - contains: ") {
        match parse_tagged(l, "    - contains: ") {
            Some(p) => Some(MatchRule::Contains(p)),
            None => None,
        }
    } else if line_begins_with(l, "    - doesNotContain: ") {
        match parse_tagged(l, "    - doesNotContain: ") {
            Some(p) => Some(MatchRule::DoesNotContain(p)),
            None => None,
        }
    } else {
        None
    }
}

/// Parses the items encoded from line `i` on.
fn parse_items_at(lines: &Vec<Vec<char>>, i: usize) -> (r: Option<Vec<InventoryItem>>)
    requires
        i <= lines@.len(),
    ensures
        match r {
            Some(items) => decode_items(lines_view(lines@).skip(i as int)) == Some(
                crate::model::items_v(items@),
            ),
            None => decode_items(lines_view(lines@).skip(i as int)) is None,
        },
    decreases lines@.len() - i, 0int,
{
    let ghost lv = lines_view(lines@);
    let ghost tail = lv.skip(i as int);
    let n = lines.len();
    if i == n {
        proof {
            assert(tail =~= Seq::<Seq<char>>::empty());
            assert(crate::model::items_v(Seq::<InventoryItem>::empty())
                =~= Seq::<ItemV>::empty());
        }
        return Some(Vec::new());
    }
    if n - i < 5 {
        return None;
    }
    proof {
        assert(tail[0] == lines@[i as int]@);
        assert(tail[1] == lines@[i as int + 1]@);
        assert(tail[2] == lines@[i as int + 2]@);
        assert(tail[3] == lines@[i as int + 3]@);
        assert(tail[4] == lines@[i as int + 4]@);
    }
    let p = match parse_tagged(&lines[i], "- product: ") {
        Some(x) => x,
        None => {
            return None;
        },
    };
    let v = match parse_tagged(&lines[i + 1], "  vendor: ") {
        Some(x) => x,
        None => {
            return None;
        },
    };
    let u = match parse_tagged(&lines[i + 2], "  url: ") {
        Some(x) => x,
        None => {
            return None;
        },
    };
    let f: bool;
    if line_is(&lines[i + 3], "  inStock: true") {
        f = true;
    } else if line_is(&lines[i + 3], "  inStock: false") {
        f = false;
    } else {
        return None;
    }
    if !line_is(&lines[i + 4], "  matches:") {
        return None;
    }
    match parse_tail_at(lines, i + 5) {
        None => {
            proof {
                assert(tail.skip(5) =~= lv.skip(i as int + 5));
            }
            None
        },
        Some((rules, items)) => {
            let ghost pre_items = items@;
            let mut items = items;
            let item = InventoryItem { product: p, vendor: v, url: u, in_stock: f, matches: rules };
            items.insert(0, item);
            proof {
                assert(tail.skip(5) =~= lv.skip(i as int + 5));
                assert(crate::model::items_v(items@) =~= seq![crate::model::item_v(item)]
                    + crate::model::items_v(pre_items));
            }
            Some(items)
        },
    }
}

/// Parses a run of rule lines from line `i` on, then the items after it.
fn parse_tail_at(lines: &Vec<Vec<char>>, i: usize) -> (r: Option<(Vec<MatchRule>, Vec<InventoryItem>)>)
    requires
        i <= lines@.len(),
    ensures
        match r {
            Some(p) => decode_tail(lines_view(lines@).skip(i as int)) == Some(
                (crate::model::rules_v_seq(p.0@), crate::model::items_v(p.1@)),
            ),
            None => decode_tail(lines_view(lines@).skip(i as int)) is None,
        },
    decreases lines@.len() - i, 1int,
{
    let ghost lv = lines_view(lines@);
    let ghost tail = lv.skip(i as int);
    if i < lines.len() && line_begins_with(&lines[i], "    - ") {
        proof {
            assert(tail[0] == lines@[i as int]@);
        }
        match parse_rule_line(&lines[i]) {
            None => None,
            Some(rule) => {
                match parse_tail_at(lines, i + 1) {
                    None => {
                        proof {
                            assert(tail.drop_first() =~= lv.skip(i as int + 1));
                        }
                        None
                    },
                    Some((rules, items)) => {
                        let ghost pre_rules = rules@;
                        let mut rules = rules;
                        rules.insert(0, rule);
                        proof {
                            assert(tail.drop_first() =~= lv.skip(i as int + 1));
                            assert(crate::model::rules_v_seq(rules@) =~= seq![
                                crate::model::rule_v(rule)] + crate::model::rules_v_seq(pre_rules));
                        }
                        Some((rules, items))
                    },
                }
            },
        }
    } else {
        proof {
            if i < lines@.len() {
                assert(tail[0] == lines@[i as int]@);
            }
        }
        match parse_items_at(lines, i) {
            None => None,
            Some(items) => {
                proof {
                    assert(crate::model::rules_v_seq(Seq::<MatchRule>::empty())
                        =~= Seq::<RuleV>::empty());
                }
                Some((Vec::new(), items))
            },
        }
    }
}

/// Whether every rule of a list carries only accepted patterns.
fn rules_ok(rules: &Vec<MatchRule>) -> (b: bool)
    ensures
        b == crate::rules::rules_wf(crate::model::rules_v_seq(rules@)),
{
    let ghost rv = crate::model::rules_v_seq(rules@);
    let mut i: usize = 0;
    while i < rules.len()
        invariant
            i <= rules@.len(),
            rv == crate::model::rules_v_seq(rules@),
            rv.len() == rules@.len(),
            forall|k: int| 0 <= k < i ==> crate::rules::rule_wf(#[trigger] rv[k]),
        decreases rules@.len() - i,
    {
        let ok: bool;
        match &rules[i] {
            MatchRule::Regex(p) => {
                ok = crate::rules::regex_pattern_ok(p.as_str());
            },
            MatchRule::NegatedRegex(p) => {
                ok = crate::rules::regex_pattern_ok(p.as_str());
            },
            MatchRule::Contains(_) => {
                ok = true;
            },
            MatchRule::DoesNotContain(_) => {
                ok = true;
            },
        }
        proof {
            assert(rv[i as int] == crate::model::rule_v(rules@[i as int]));
            assert(ok == crate::rules::rule_wf(rv[i as int]));
        }
        if !ok {
            return false;
        }
        i = i + 1;
    }
    true
}

/// Whether every item of a collection carries only accepted patterns.
pub fn items_rules_ok(items: &Vec<InventoryItem>) -> (b: bool)
    ensures
        b == crate::rules::items_wf(crate::model::items_v(items@)),
{
    let ghost cv = crate::model::items_v(items@);
    let mut i: usize = 0;
    while i < items.len()
        invariant
            i <= items@.len(),
            cv == crate::model::items_v(items@),
            cv.len() == items@.len(),
            forall|k: int| 0 <= k < i ==> crate::rules::rules_wf(#[trigger] cv[k].matches),
        decreases items@.len() - i,
    {
        proof {
            assert(cv[i as int] == crate::model::item_v(items@[i as int]));
        }
        let ok = rules_ok(&items[i].matches);
        if !ok {
            proof {
                assert(!crate::rules::rules_wf(cv[i as int].matches));
            }
            return false;
        }
        i = i + 1;
    }
    true
}

/// Deserializes a collection from the persistence format. Returns the
/// collection the text encodes exactly when the text is an encoding and
/// every regex pattern in it is accepted; otherwise says which failed.
pub fn load_items(s: &str) -> (r: Result<Vec<InventoryItem>, ParseError>)
    ensures
        match r {
            Ok(items) => full_decode(s@) == Some(crate::model::items_v(items@))
                && crate::rules::items_wf(crate::model::items_v(items@)),
            Err(ParseError::Syntax) => full_decode(s@) is None,
            Err(ParseError::BadPattern) => full_decode(s@) is Some && !crate::rules::items_wf(
                full_decode(s@)->0,
            ),
        },
{
    let chars = crate::text::str_to_chars(s);
    let lines = match split_into_lines(&chars) {
        Some(ls) => ls,
        None => {
            return Err(ParseError::Syntax);
        },
    };
    proof {
        assert(lines_view(lines@).skip(0) =~= lines_view(lines@));
    }
    let items = match parse_items_at(&lines, 0) {
        Some(it) => it,
        None => {
            return Err(ParseError::Syntax);
        },
    };
    if items_rules_ok(&items) {
        Ok(items)
    } else {
        Err(ParseError::BadPattern)
    }
}

} // verus!
