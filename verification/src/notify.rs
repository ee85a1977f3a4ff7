//! The notifier's message renderer: builds the digest text that is handed to
//! the messaging sink, one line per item, with hyphens escaped for the
//! sink's rich-text dialect.

use vstd::prelude::*;
use vstd::string::*;
use crate::model::{InventoryItem, ItemV, items_v};
use crate::text::{append_str, chars_to_string};

verus! {

/// Status text of a stock flag.
pub open spec fn status_text(f: bool) -> Seq<char> {
    if f {
        "In Stock"@
    } else {
        "Out of Stock"@
    }
}

/// The digest line of one item, with its leading line break.
pub open spec fn item_line_text(it: ItemV) -> Seq<char> {
    "\n"@ + it.product + " - ["@ + it.vendor + "]("@ + it.url + ") - "@ + status_text(
        it.in_stock,
    )
}

/// The unescaped digest: the header followed by one line per item, in order.
pub open spec fn raw_message(header: Seq<char>, items: Seq<ItemV>) -> Seq<char>
    decreases items.len(),
{
    if items.len() == 0 {
        header
    } else {
        raw_message(header, items.drop_last()) + item_line_text(items.last())
    }
}

/// Escape of one digest character.
pub open spec fn esc_dash_char(c: char) -> Seq<char> {
    if c == '-' {
        seq!['\\', '-']
    } else {
        seq![c]
    }
}

/// The digest with every hyphen escaped.
pub open spec fn escape_dashes(s: Seq<char>) -> Seq<char>
    decreases s.len(),
{
    if s.len() == 0 {
        Seq::empty()
    } else {
        esc_dash_char(s[0]) + escape_dashes(s.drop_first())
    }
}

/// The rendered digest: the raw message with every hyphen escaped.
pub open spec fn message_text(header: Seq<char>, items: Seq<ItemV>) -> Seq<char> {
    escape_dashes(raw_message(header, items))
}

/// Escaping one more character appends that character's escape.
proof fn lemma_escape_dashes_snoc(a: Seq<char>, c: char)
    ensures
        escape_dashes(a.push(c)) == escape_dashes(a) + esc_dash_char(c),
    decreases a.len(),
{
    if a.len() == 0 {
        assert(a.push(c)[0] == c);
        assert(a.push(c).drop_first() =~= Seq::<char>::empty());
        assert(escape_dashes(Seq::<char>::empty()) == Seq::<char>::empty());
        assert(escape_dashes(a.push(c)) =~= escape_dashes(a) + esc_dash_char(c));
    } else {
        assert(a.push(c)[0] == a[0]);
        assert(a.push(c).drop_first() =~= a.drop_first().push(c));
        lemma_escape_dashes_snoc(a.drop_first(), c);
        assert(esc_dash_char(a[0]) + (escape_dashes(a.drop_first()) + esc_dash_char(c)) =~= (
        esc_dash_char(a[0]) + escape_dashes(a.drop_first())) + esc_dash_char(c));
    }
}

/// Renders the digest for a header and a collection: the header, then one
/// line per item in `"{product} - [{vendor}]({url}) - {status}"` form, with
/// every hyphen in the assembled text escaped by a backslash.
pub fn render_message(header: &str, items: &Vec<InventoryItem>) -> (r: String)
    ensures
        r@ == message_text(header@, items_v(items@)),
{
    let ghost cv = items_v(items@);
    let mut raw: Vec<char> = Vec::new();
    append_str(&mut raw, header);
    let mut i: usize = 0;
    proof {
        assert(cv.take(0) =~= Seq::<ItemV>::empty());
        assert(raw@ =~= header@);
    }
    while i < items.len()
        invariant
            i <= items@.len(),
            cv == items_v(items@),
            cv.len() == items@.len(),
            raw@ == raw_message(header@, cv.take(i as int)),
        decreases items@.len() - i,
    {
        let it = &items[i];
        let ghost itv = cv[i as int];
        let ghost pre = raw@;
        proof {
            assert(itv == crate::model::item_v(items@[i as int]));
        }
        append_str(&mut raw, "\n");
        append_str(&mut raw, it.product.as_str());
        append_str(&mut raw, " - [");
        append_str(&mut raw, it.vendor.as_str());
        append_str(&mut raw, "](");
        append_str(&mut raw, it.url.as_str());
        append_str(&mut raw, ") - ");
        if it.in_stock {
            append_str(&mut raw, "In Stock");
        } else {
            append_str(&mut raw, "Out of Stock");
        }
        proof {
            assert(raw@ =~= pre + item_line_text(itv));
            assert(cv.take(i as int + 1).drop_last() =~= cv.take(i as int));
            assert(cv.take(i as int + 1).last() == itv);
        }
        i = i + 1;
    }
    proof {
        assert(cv.take(items@.len() as int) =~= cv);
    }
    let mut out: Vec<char> = Vec::new();
    let mut j: usize = 0;
    proof {
        assert(escape_dashes(raw@.take(0)) =~= Seq::<char>::empty());
    }
    while j < raw.len()
        invariant
            j <= raw@.len(),
            out@ == escape_dashes(raw@.take(j as int)),
        decreases raw@.len() - j,
    {
        let c = raw[j];
        proof {
            lemma_escape_dashes_snoc(raw@.take(j as int), c);
            assert(raw@.take(j as int).push(c) =~= raw@.take(j as int + 1));
        }
        if c == '-' {
            out.push('\\');
            out.push('-');
        } else {
            out.push(c);
        }
        proof {
            assert(out@ =~= escape_dashes(raw@.take(j as int)) + esc_dash_char(c));
        }
        j = j + 1;
    }
    proof {
        assert(raw@.take(raw@.len() as int) =~= raw@);
    }
    chars_to_string(&out)
}

} // verus!
