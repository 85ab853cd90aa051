//! Human-readable listings: one line per entry as `key: value` within a
//! collection view, one line per collection as `name (count)` for the
//! top-level view.

use vstd::prelude::*;
use crate::collection::BoomCollection;
use crate::collection::BoomEntry;
use crate::collection::CollectionModel;
use crate::collection::EntryModel;
use crate::facade::Boom;

verus! {

/// The decimal digit character for one digit value.
pub open spec fn digit_char(d: nat) -> char {
    if d == 0 {
        '0'
    } else if d == 1 {
        '1'
    } else if d == 2 {
        '2'
    } else if d == 3 {
        '3'
    } else if d == 4 {
        '4'
    } else if d == 5 {
        '5'
    } else if d == 6 {
        '6'
    } else if d == 7 {
        '7'
    } else if d == 8 {
        '8'
    } else {
        '9'
    }
}

/// The decimal numeral of a number, most significant digit first.
pub open spec fn dec_str(n: nat) -> Seq<char>
    decreases n,
{
    if n < 10 {
        seq![digit_char(n)]
    } else {
        dec_str(n / 10).push(digit_char(n % 10))
    }
}

/// The listing line of one entry.
pub open spec fn entry_line(e: EntryModel) -> Seq<char> {
    e.key + ": "@ + e.value
}

/// The listing of a sequence of entries, one line each, joined by line
/// breaks.
pub open spec fn entries_listing(es: Seq<EntryModel>) -> Seq<char>
    decreases es.len(),
{
    if es.len() == 0 {
        Seq::empty()
    } else if es.len() == 1 {
        entry_line(es[0])
    } else {
        entry_line(es[0]) + "\n"@ + entries_listing(es.drop_first())
    }
}

/// The overview line of one collection: its name and its entry count.
pub open spec fn overview_line(c: CollectionModel) -> Seq<char> {
    c.name + " ("@ + dec_str(c.entries.len()) + ")"@
}

/// The overview of a dataset, one line per collection, joined by line
/// breaks.
pub open spec fn overview_listing(ds: Seq<CollectionModel>) -> Seq<char>
    decreases ds.len(),
{
    if ds.len() == 0 {
        Seq::empty()
    } else if ds.len() == 1 {
        overview_line(ds[0])
    } else {
        overview_line(ds[0]) + "\n"@ + overview_listing(ds.drop_first())
    }
}

/// The decimal digit character of one digit value.
fn digit_x(d: usize) -> (r: char)
    requires
        d < 10,
    ensures
        r == digit_char(d as nat),
{
    if d == 0 {
        '0'
    } else if d == 1 {
        '1'
    } else if d == 2 {
        '2'
    } else if d == 3 {
        '3'
    } else if d == 4 {
        '4'
    } else if d == 5 {
        '5'
    } else if d == 6 {
        '6'
    } else if d == 7 {
        '7'
    } else if d == 8 {
        '8'
    } else {
        '9'
    }
}

/// The decimal numeral of a number.
fn dec_x(n: usize) -> (r: String)
    ensures
        r@ == dec_str(n as nat),
    decreases n,
{
    if n < 10 {
        let mut out = String::new();
        crate::codec::push_char(&mut out, digit_x(n));
        proof {
            assert(out@ =~= seq![digit_char(n as nat)]);
        }
        out
    } else {
        let mut out = dec_x(n / 10);
        crate::codec::push_char(&mut out, digit_x(n % 10));
        out
    }
}

impl BoomEntry {
    /// The entry's listing line, `key: value`.
    pub fn listing(&self) -> (r: String)
        ensures
            r@ == entry_line(self@),
    {
        let mut out = self.key.clone();
        out.append(": ");
        out.append(self.value.as_str());
        out
    }
}

impl BoomCollection {
    /// The collection's listing: one line per entry, in storage order.
    pub fn listing(&self) -> (r: String)
        ensures
            r@ == entries_listing(self@.entries),
    {
        let r = listing_from(&self.values, 0);
        proof {
            assert(crate::collection::entry_models(self.values@).skip(0) =~= self@.entries);
        }
        r
    }
}

/// The listing of the entries from a position on.
fn listing_from(values: &Vec<BoomEntry>, i: usize) -> (r: String)
    requires
        i <= values@.len(),
    ensures
        r@ == entries_listing(crate::collection::entry_models(values@).skip(i as int)),
    decreases values@.len() - i,
{
    let ghost es = crate::collection::entry_models(values@);
    if i == values.len() {
        proof {
            assert(es.skip(i as int).len() == 0);
        }
        String::new()
    } else if i + 1 == values.len() {
        proof {
            assert(es.skip(i as int).len() == 1);
            assert(es.skip(i as int)[0] == es[i as int]);
        }
        values[i].listing()
    } else {
        let mut out = values[i].listing();
        out.append("\n");
        let tail = listing_from(values, i + 1);
        out.append(tail.as_str());
        proof {
            assert(es.skip(i as int)[0] == es[i as int]);
            assert(es.skip(i as int).drop_first() =~= es.skip(i as int + 1));
            assert(es.skip(i as int).len() > 1);
            assert(out@ =~= entries_listing(es.skip(i as int)));
        }
        out
    }
}

/// The overview of the collections from a position on.
fn overview_from(data: &Vec<BoomCollection>, i: usize) -> (r: String)
    requires
        i <= data@.len(),
    ensures
        r@ == overview_listing(crate::store::coll_models(data@).skip(i as int)),
    decreases data@.len() - i,
{
    let ghost ds = crate::store::coll_models(data@);
    if i == data.len() {
        proof {
            assert(ds.skip(i as int).len() == 0);
        }
        String::new()
    } else {
        let mut out = data[i].collection.clone();
        out.append(" (");
        let count = dec_x(data[i].values.len());
        out.append(count.as_str());
        out.append(")");
        proof {
            assert(ds.skip(i as int)[0] == ds[i as int]);
            assert(out@ =~= overview_line(ds[i as int]));
        }
        if i + 1 == data.len() {
            proof {
                assert(ds.skip(i as int).len() == 1);
            }
            out
        } else {
            out.append("\n");
            let tail = overview_from(data, i + 1);
            out.append(tail.as_str());
            proof {
                assert(ds.skip(i as int).drop_first() =~= ds.skip(i as int + 1));
                assert(ds.skip(i as int).len() > 1);
                assert(out@ =~= overview_listing(ds.skip(i as int)));
            }
            out
        }
    }
}

impl Boom {
    /// The top-level overview: one line per collection, `name (count)`,
    /// in storage order.
    pub fn listing(&self) -> (r: String)
        ensures
            r@ == overview_listing(self.data@),
    {
        let r = overview_from(&self.data.data, 0);
        proof {
            assert(crate::store::coll_models(self.data.data@).skip(0) =~= self.data@);
        }
        r
    }
}

} // verus!
