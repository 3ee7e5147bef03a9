//! The router's request parsing: collection-name lists, default search
//! fields and the `name:asc|age:desc` sort parameter. All of it works on
//! the request's UTF-8 bytes; a malformed sort entry fails `ParamError`.

use vstd::prelude::*;

use crate::codec::copy_range;
use crate::codes::Code;

verus! {

/// Per-document query string of the HTTP surface.
pub struct DocumentQuery {
    pub version: Option<i64>,
    pub sort_key: Option<String>,
}

/// One parsed sort entry: the field's name bytes and its direction.
#[derive(Debug)]
pub struct Order {
    pub name: Vec<u8>,
    pub asc: bool,
}

/// The views of parsed orders.
pub open spec fn orders_view(s: Seq<Order>) -> Seq<(Seq<u8>, bool)> {
    s.map_values(|o: Order| (o.name@, o.asc))
}

/// First index at or after `pos` holding `sep`, or the length.
pub open spec fn find_byte(b: Seq<u8>, sep: u8, pos: int) -> int
    decreases b.len() - pos,
{
    if pos < 0 || pos >= b.len() {
        b.len() as int
    } else if b[pos] == sep {
        pos
    } else {
        find_byte(b, sep, pos + 1)
    }
}

pub proof fn lemma_find_byte_bounds(b: Seq<u8>, sep: u8, pos: int)
    requires
        0 <= pos <= b.len(),
    ensures
        pos <= find_byte(b, sep, pos) <= b.len(),
    decreases b.len() - pos,
{
    if pos < b.len() && b[pos] != sep {
        lemma_find_byte_bounds(b, sep, pos + 1);
    }
}

/// Scans for `sep`, exactly as [`find_byte`] reads it.
pub fn find_byte_in(b: &Vec<u8>, sep: u8, from: usize) -> (r: usize)
    requires
        from <= b@.len(),
    ensures
        r == find_byte(b@, sep, from as int),
        from <= r <= b@.len(),
{
    let mut i: usize = from;
    while i < b.len()
        invariant
            from <= i <= b@.len(),
            find_byte(b@, sep, from as int) == find_byte(b@, sep, i as int),
        decreases b@.len() - i,
    {
        if b[i] == sep {
            return i;
        }
        i = i + 1;
    }
    i
}

/// Upper-case ASCII folded to lower case; everything else unchanged.
pub open spec fn spec_ascii_lower(x: u8) -> u8 {
    if 65 <= x <= 90 {
        (x + 32) as u8
    } else {
        x
    }
}

/// Is the order token `asc`, ASCII case aside?
pub open spec fn is_asc(o: Seq<u8>) -> bool {
    o.len() == 3 && spec_ascii_lower(o[0]) == 97 && spec_ascii_lower(o[1]) == 115
        && spec_ascii_lower(o[2]) == 99
}

/// Is the order token `desc`, ASCII case aside?
pub open spec fn is_desc(o: Seq<u8>) -> bool {
    o.len() == 4 && spec_ascii_lower(o[0]) == 100 && spec_ascii_lower(o[1]) == 101
        && spec_ascii_lower(o[2]) == 115 && spec_ascii_lower(o[3]) == 99
}

fn ascii_lower(x: u8) -> (r: u8)
    ensures
        r == spec_ascii_lower(x),
{
    if 65 <= x && x <= 90 {
        x + 32
    } else {
        x
    }
}

/// One `name:order` segment: exactly one colon, and an order of `asc` or
/// `desc` in any ASCII case.
pub open spec fn spec_parse_seg(seg: Seq<u8>) -> Option<(Seq<u8>, bool)> {
    let c = find_byte(seg, 58, 0);
    if c >= seg.len() {
        None
    } else {
        let name = seg.subrange(0, c);
        let ord = seg.subrange(c + 1, seg.len() as int);
        if find_byte(ord, 58, 0) < ord.len() {
            None
        } else if is_asc(ord) {
            Some((name, true))
        } else if is_desc(ord) {
            Some((name, false))
        } else {
            None
        }
    }
}

/// The sort entries from `pos` on, split on `|`.
pub open spec fn spec_parse_sort_at(b: Seq<u8>, pos: int) -> Option<Seq<(Seq<u8>, bool)>>
    decreases b.len() - pos,
        when 0 <= pos <= b.len()
        via spec_parse_sort_at_dec
{
    let e = find_byte(b, 124, pos);
    let seg = b.subrange(pos, e);
    match spec_parse_seg(seg) {
        None => None,
        Some(o) => if e >= b.len() {
            Some(seq![o])
        } else {
            match spec_parse_sort_at(b, e + 1) {
                None => None,
                Some(t) => Some(seq![o] + t),
            }
        },
    }
}

/// Parses one segment, exactly as [`spec_parse_seg`] reads it.
fn parse_seg(seg: &Vec<u8>) -> (r: Option<Order>)
    ensures
        match r {
            Some(o) => spec_parse_seg(seg@) == Some((o.name@, o.asc)),
            None => spec_parse_seg(seg@) is None,
        },
{
    let c = find_byte_in(seg, 58, 0);
    if c >= seg.len() {
        return None;
    }
    let name = copy_range(seg, 0, c);
    let ord = copy_range(seg, c + 1, seg.len() - c - 1);
    proof {
        assert(ord@ =~= seg@.subrange(c as int + 1, seg@.len() as int));
        assert(name@ =~= seg@.subrange(0, c as int));
    }
    if find_byte_in(&ord, 58, 0) < ord.len() {
        return None;
    }
    let asc: bool = if ord.len() == 3 && ascii_lower(ord[0]) == 97 && ascii_lower(ord[1]) == 115
        && ascii_lower(ord[2]) == 99 {
        true
    } else if ord.len() == 4 && ascii_lower(ord[0]) == 100 && ascii_lower(ord[1]) == 101
        && ascii_lower(ord[2]) == 115 && ascii_lower(ord[3]) == 99 {
        false
    } else {
        return None;
    };
    Some(Order { name, asc })
}

/// Parses the whole sort parameter: entries split on `|`, each of the
/// form `name:asc` or `name:desc` (ASCII case aside); anything else
/// fails `ParamError`.
pub fn parse_sort(b: &Vec<u8>) -> (r: Result<Vec<Order>, Code>)
    ensures
        match r {
            Ok(orders) => spec_parse_sort_at(b@, 0) == Some(orders_view(orders@)),
            Err(c) => c == Code::ParamError && spec_parse_sort_at(b@, 0) is None,
        },
{
    let mut out: Vec<Order> = Vec::new();
    let mut pos: usize = 0;
    proof {
        if spec_parse_sort_at(b@, 0) is Some {
            assert(orders_view(out@) =~= Seq::<(Seq<u8>, bool)>::empty());
            assert(orders_view(out@) + spec_parse_sort_at(b@, 0).unwrap() =~= spec_parse_sort_at(
                b@,
                0,
            ).unwrap());
        }
    }
    loop
        invariant
            pos <= b@.len(),
            match spec_parse_sort_at(b@, pos as int) {
                Some(t) => spec_parse_sort_at(b@, 0) == Some(orders_view(out@) + t),
                None => spec_parse_sort_at(b@, 0) is None,
            },
        decreases b@.len() - pos,
    {
        let ghost out0 = out@;
        let e = find_byte_in(b, 124, pos);
        let seg = copy_range(b, pos, e - pos);
        proof {
            assert(seg@ =~= b@.subrange(pos as int, find_byte(b@, 124, pos as int)));
        }
        match parse_seg(&seg) {
            None => {
                return Err(Code::ParamError);
            },
            Some(o) => {
                let ghost ov = (o.name@, o.asc);
                out.push(o);
                proof {
                    assert(orders_view(out@) =~= orders_view(out0).push(ov));
                }
                if e >= b.len() {
                    proof {
                        assert(spec_parse_sort_at(b@, pos as int) == Some(seq![ov]));
                        assert(orders_view(out0) + seq![ov] =~= orders_view(out@));
                    }
                    return Ok(out);
                }
                proof {
                    if spec_parse_sort_at(b@, e as int + 1) is Some {
                        let t = spec_parse_sort_at(b@, e as int + 1).unwrap();
                        assert(spec_parse_sort_at(b@, pos as int) == Some(seq![ov] + t));
                        assert(orders_view(out0) + (seq![ov] + t) =~= orders_view(out@) + t);
                    }
                }
                pos = e + 1;
            },
        }
    }
}

#[via_fn]
proof fn spec_parse_sort_at_dec(b: Seq<u8>, pos: int) {
    lemma_find_byte_bounds(b, 124, pos);
}

/// The `,`-separated values from `pos` on, empties kept (the default
/// search fields).
pub open spec fn spec_split_at(b: Seq<u8>, pos: int) -> Seq<Seq<u8>>
    decreases b.len() - pos,
        when 0 <= pos <= b.len()
        via spec_split_at_dec
{
    let e = find_byte(b, 44, pos);
    let seg = b.subrange(pos, e);
    if e >= b.len() {
        seq![seg]
    } else {
        seq![seg] + spec_split_at(b, e + 1)
    }
}

#[via_fn]
proof fn spec_split_at_dec(b: Seq<u8>, pos: int) {
    lemma_find_byte_bounds(b, 44, pos);
}

/// The `,`-separated values from `pos` on, empties skipped (the
/// collection names).
pub open spec fn spec_split_skip_at(b: Seq<u8>, pos: int) -> Seq<Seq<u8>>
    decreases b.len() - pos,
        when 0 <= pos <= b.len()
        via spec_split_skip_at_dec
{
    let e = find_byte(b, 44, pos);
    let seg = b.subrange(pos, e);
    let rest: Seq<Seq<u8>> = if e >= b.len() {
        Seq::empty()
    } else {
        spec_split_skip_at(b, e + 1)
    };
    if seg.len() == 0 {
        rest
    } else {
        seq![seg] + rest
    }
}

#[via_fn]
proof fn spec_split_skip_at_dec(b: Seq<u8>, pos: int) {
    lemma_find_byte_bounds(b, 44, pos);
}

/// The views of split values.
pub open spec fn bytes_list_view(s: Seq<Vec<u8>>) -> Seq<Seq<u8>> {
    s.map_values(|v: Vec<u8>| v@)
}

/// Splits on commas, keeping empty values.
pub fn split_values(b: &Vec<u8>) -> (r: Vec<Vec<u8>>)
    ensures
        bytes_list_view(r@) == spec_split_at(b@, 0),
{
    let mut out: Vec<Vec<u8>> = Vec::new();
    let mut pos: usize = 0;
    proof {
        assert(bytes_list_view(out@) + spec_split_at(b@, 0) =~= spec_split_at(b@, 0));
    }
    loop
        invariant
            pos <= b@.len(),
            spec_split_at(b@, 0) == bytes_list_view(out@) + spec_split_at(b@, pos as int),
        decreases b@.len() - pos,
    {
        let ghost out0 = out@;
        let e = find_byte_in(b, 44, pos);
        let seg = copy_range(b, pos, e - pos);
        proof {
            assert(seg@ =~= b@.subrange(pos as int, find_byte(b@, 44, pos as int)));
        }
        let ghost sv = seg@;
        out.push(seg);
        proof {
            assert(bytes_list_view(out@) =~= bytes_list_view(out0).push(sv));
        }
        if e >= b.len() {
            proof {
                assert(spec_split_at(b@, pos as int) == seq![sv]);
                assert(bytes_list_view(out0) + seq![sv] =~= bytes_list_view(out@));
                assert(bytes_list_view(out@) + Seq::<Seq<u8>>::empty() =~= bytes_list_view(out@));
                assert(spec_split_at(b@, 0) =~= bytes_list_view(out@));
            }
            return out;
        }
        proof {
            let t = spec_split_at(b@, e as int + 1);
            assert(spec_split_at(b@, pos as int) == seq![sv] + t);
            assert(bytes_list_view(out0) + (seq![sv] + t) =~= bytes_list_view(out@) + t);
        }
        pos = e + 1;
    }
}

/// Splits on commas, skipping empty names.
pub fn split_names(b: &Vec<u8>) -> (r: Vec<Vec<u8>>)
    ensures
        bytes_list_view(r@) == spec_split_skip_at(b@, 0),
{
    let mut out: Vec<Vec<u8>> = Vec::new();
    let mut pos: usize = 0;
    proof {
        assert(bytes_list_view(out@) + spec_split_skip_at(b@, 0) =~= spec_split_skip_at(b@, 0));
    }
    loop
        invariant
            pos <= b@.len(),
            spec_split_skip_at(b@, 0) == bytes_list_view(out@) + spec_split_skip_at(
                b@,
                pos as int,
            ),
        decreases b@.len() - pos,
    {
        let ghost out0 = out@;
        let e = find_byte_in(b, 44, pos);
        let seg = copy_range(b, pos, e - pos);
        proof {
            assert(seg@ =~= b@.subrange(pos as int, find_byte(b@, 44, pos as int)));
        }
        let ghost sv = seg@;
        let last = e >= b.len();
        if seg.len() > 0 {
            out.push(seg);
            proof {
                assert(bytes_list_view(out@) =~= bytes_list_view(out0).push(sv));
            }
        }
        proof {
            let rest: Seq<Seq<u8>> = if e as int >= b@.len() {
                Seq::empty()
            } else {
                spec_split_skip_at(b@, e as int + 1)
            };
            assert(spec_split_skip_at(b@, pos as int) == (if sv.len() == 0 {
                rest
            } else {
                seq![sv] + rest
            }));
            if sv.len() == 0 {
                assert(bytes_list_view(out@) == bytes_list_view(out0));
            } else {
                assert(bytes_list_view(out0) + (seq![sv] + rest) =~= bytes_list_view(out@) + rest);
            }
        }
        if last {
            proof {
                assert(bytes_list_view(out@) + Seq::<Seq<u8>>::empty() =~= bytes_list_view(out@));
            }
            return out;
        }
        pos = e + 1;
    }
}

} // verus!
