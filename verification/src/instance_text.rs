use vstd::prelude::*;
use crate::format::parse_u64;
use crate::text::{is_digit, parse_nat, read_number, split_words, words};
use crate::vrp_instance::{VRPInstance, MAX_COORD, MAX_CUSTOMERS};

verus! {

/// The lines of `text`: its stretches between line feeds; a line feed at
/// the very end ends the last line and starts no other.
pub open spec fn lines(text: Seq<u8>) -> Seq<Seq<u8>>
    decreases text.len(),
{
    if text.len() == 0 {
        Seq::empty()
    } else {
        let init = lines(text.drop_last());
        let b = text.last();
        let fresh = text.len() == 1 || text[text.len() - 2] == 10 || init.len() == 0;
        if b == 10 {
            if fresh {
                init.push(Seq::empty())
            } else {
                init
            }
        } else if fresh {
            init.push(seq![b])
        } else {
            init.update(init.len() - 1, init.last().push(b))
        }
    }
}

/// The lines of `text`.
pub fn split_lines(text: &[u8]) -> (out: Vec<Vec<u8>>)
    ensures
        out@.len() == lines(text@).len(),
        forall|k: int| 0 <= k < out@.len() ==> (#[trigger] out@[k])@ == lines(text@)[k],
{
    let mut out: Vec<Vec<u8>> = Vec::new();
    let mut line: Vec<u8> = Vec::new();
    let mut open = false;
    let mut i: usize = 0;
    proof {
        assert(text@.take(0) =~= Seq::<u8>::empty());
    }
    while i < text.len()
        invariant
            i <= text@.len(),
            open <==> (i > 0 && text@[i - 1] != 10),
            open ==> lines(text@.take(i as int)).len() == out@.len() + 1 && lines(
                text@.take(i as int),
            ).last() == line@,
            !open ==> lines(text@.take(i as int)).len() == out@.len() && line@.len() == 0,
            forall|k: int|
                0 <= k < out@.len() ==> (#[trigger] out@[k])@ == lines(text@.take(i as int))[k],
        decreases text@.len() - i,
    {
        let b = text[i];
        proof {
            assert(text@.take(i + 1).drop_last() =~= text@.take(i as int));
            assert(text@.take(i + 1).last() == b);
            if i > 0 {
                assert(text@.take(i + 1)[i - 1] == text@[i - 1]);
            }
        }
        if b == 10 {
            if open {
                out.push(line);
                line = Vec::new();
                open = false;
            } else {
                out.push(Vec::new());
            }
        } else {
            line.push(b);
            open = true;
        }
        i = i + 1;
    }
    proof {
        assert(text@.take(i as int) =~= text@);
    }
    if open {
        out.push(line);
    }
    out
}

/// Where the first point of `tok` stands, or its length if it has none.
pub open spec fn find_dot(tok: Seq<u8>) -> int
    decreases tok.len(),
{
    if tok.len() == 0 || tok[0] == 46 {
        0
    } else {
        1 + find_dot(tok.drop_first())
    }
}

/// Whether `tok` holds nothing but digits.
pub open spec fn all_digits(tok: Seq<u8>) -> bool {
    forall|i: int| 0 <= i < tok.len() ==> is_digit(#[trigger] tok[i])
}

/// The value, in thousandths, of the digits `frac` behind a point: the
/// first three count, and digits that are missing count as zeros.
pub open spec fn thousandths(frac: Seq<u8>) -> int {
    (if frac.len() > 0 {
        (frac[0] - 48) * 100
    } else {
        0
    }) + (if frac.len() > 1 {
        (frac[1] - 48) * 10
    } else {
        0
    }) + (if frac.len() > 2 {
        frac[2] - 48
    } else {
        0
    })
}

/// The number, in thousandths, that `tok` writes as a decimal fraction: a
/// minus sign or none, digits, and, if there is a point, the digits behind
/// it.
pub open spec fn parse_fixed(tok: Seq<u8>) -> Option<int> {
    if tok.len() == 0 {
        None
    } else {
        let negative = tok[0] == 45;
        let body = if negative {
            tok.skip(1)
        } else {
            tok
        };
        let p = find_dot(body);
        let frac = if p < body.len() {
            body.skip(p + 1)
        } else {
            Seq::empty()
        };
        match parse_nat(body.take(p)) {
            None => None,
            Some(whole) => if !all_digits(frac) {
                None
            } else if negative {
                Some(-(whole * 1000 + thousandths(frac)))
            } else {
                Some(whole * 1000 + thousandths(frac))
            },
        }
    }
}

/// The coordinate that `tok` writes, where it writes one within
/// `MAX_COORD` of zero.
pub open spec fn coord_of(tok: Seq<u8>) -> Option<int> {
    match parse_fixed(tok) {
        Some(v) => if -MAX_COORD <= v <= MAX_COORD {
            Some(v)
        } else {
            None
        },
        None => None,
    }
}

/// The coordinate that `tok` writes, in length units.
pub fn read_coord(tok: &Vec<u8>) -> (res: Option<i64>)
    ensures
        match res {
            Some(v) => coord_of(tok@) == Some(v as int),
            None => coord_of(tok@) is None,
        },
{
    if tok.len() == 0 {
        return None;
    }
    let negative = tok[0] == 45;
    let start: usize = if negative {
        1
    } else {
        0
    };
    let ghost body = if negative {
        tok@.skip(1)
    } else {
        tok@
    };
    let mut p: usize = start;
    proof {
        assert(body.skip(0) =~= body);
        if !negative {
            assert(tok@.skip(0) =~= tok@);
        }
    }
    while p < tok.len() && tok[p] != 46
        invariant
            start <= p <= tok@.len(),
            body == tok@.skip(start as int),
            find_dot(body) == (p - start) + find_dot(body.skip(p - start)),
        decreases tok@.len() - p,
    {
        proof {
            assert(body.skip(p - start)[0] == tok@[p as int]);
            assert(body.skip(p - start).drop_first() =~= body.skip(p - start + 1));
        }
        p = p + 1;
    }
    proof {
        if negative {
        } else {
            assert(tok@.skip(0) =~= tok@);
        }
        assert(body.skip(0) =~= body);
        if p < tok@.len() {
            assert(body.skip(p - start)[0] == tok@[p as int]);
        }
        assert(find_dot(body) == p - start);
    }
    let mut whole_digits: Vec<u8> = Vec::new();
    let mut i: usize = start;
    while i < p
        invariant
            start <= i <= p <= tok@.len(),
            body == tok@.skip(start as int),
            whole_digits@ == body.take(i - start),
        decreases p - i,
    {
        whole_digits.push(tok[i]);
        proof {
            assert(body.take(i - start + 1) =~= body.take(i - start).push(tok@[i as int]));
        }
        i = i + 1;
    }
    let ghost frac = if p - start < body.len() {
        body.skip(p - start + 1)
    } else {
        Seq::empty()
    };
    let mut frac_value: i64 = 0;
    let mut place: i64 = 100;
    let mut j: usize = if p < tok.len() {
        p + 1
    } else {
        p
    };
    let ghost frac_start = j;
    proof {
        assert(frac =~= tok@.skip(frac_start as int));
    }
    while j < tok.len()
        invariant
            tok@.len() > 0,
            negative == (tok@[0] == 45),
            body == if negative {
                tok@.skip(1)
            } else {
                tok@
            },
            start <= p,
            find_dot(body) == p - start,
            frac == if p - start < body.len() {
                body.skip(p - start + 1)
            } else {
                Seq::empty()
            },
            frac_start <= j <= tok@.len(),
            frac == tok@.skip(frac_start as int),
            forall|k: int| 0 <= k < j - frac_start ==> is_digit(#[trigger] frac[k]),
            place == if j - frac_start == 0 {
                100i64
            } else if j - frac_start == 1 {
                10i64
            } else if j - frac_start == 2 {
                1i64
            } else {
                0i64
            },
            frac_value == thousandths(frac.take(j - frac_start)),
            0 <= frac_value <= 999,
        decreases tok@.len() - j,
    {
        let b = tok[j];
        proof {
            assert(frac[j - frac_start] == b);
        }
        if b < 48 || b > 57 {
            proof {
                assert(!is_digit(frac[j - frac_start]));
                assert(!all_digits(frac));
            }
            return None;
        }
        proof {
            let before = frac.take(j - frac_start);
            let after = frac.take(j - frac_start + 1);
            assert(after.len() == before.len() + 1);
            assert(forall|k: int| 0 <= k < before.len() ==> before[k] == after[k]);
            assert(after[j - frac_start] == b);
        }
        frac_value = frac_value + place * (b - 48) as i64;
        place = if place == 100 {
            10
        } else if place == 10 {
            1
        } else {
            0
        };
        j = j + 1;
    }
    proof {
        assert(frac.take(j - frac_start) =~= frac);
        assert(all_digits(frac));
    }
    let whole = match read_number(&whole_digits) {
        Some(whole) => whole,
        None => {
            proof {
                if parse_nat(body.take(p - start)) is Some {
                    let w = parse_nat(body.take(p - start))->Some_0;
                    assert(w * 1000 + thousandths(frac) > MAX_COORD) by (nonlinear_arith)
                        requires
                            w > 0xffff_ffff_ffff_ffff,
                            thousandths(frac) >= 0,
                    ;
                }
            }
            return None;
        },
    };
    if whole > (MAX_COORD as u64) / 1000 + 1 {
        proof {
            assert(whole * 1000 + thousandths(frac) > MAX_COORD) by (nonlinear_arith)
                requires
                    whole > 1073742,
                    thousandths(frac) >= 0,
            ;
        }
        return None;
    }
    let magnitude: i64 = (whole * 1000) as i64 + frac_value;
    if magnitude > MAX_COORD {
        return None;
    }
    if negative {
        Some(-magnitude)
    } else {
        Some(magnitude)
    }
}

/// What the first line of an instance says: the number of customers with
/// the depot, the number of vehicles and their capacity.
pub open spec fn header_of(line: Seq<u8>) -> Option<(nat, nat, nat)> {
    let ws = words(line);
    if ws.len() < 3 {
        None
    } else {
        match (parse_u64(ws[0]), parse_u64(ws[1]), parse_u64(ws[2])) {
            (Some(n), Some(v), Some(c)) => Some((n, v, c)),
            _ => None,
        }
    }
}

/// What the line of a customer says: the demand and the two coordinates.
pub open spec fn row_of(line: Seq<u8>) -> Option<(nat, int, int)> {
    let ws = words(line);
    if ws.len() < 3 {
        None
    } else {
        match (parse_u64(ws[0]), coord_of(ws[1]), coord_of(ws[2])) {
            (Some(d), Some(x), Some(y)) => if d <= usize::MAX {
                Some((d, x, y))
            } else {
                None
            },
            _ => None,
        }
    }
}

/// The first `n` customers: customer `i` stands on line `i + 1`; a
/// customer past the end of the text has no demand and lies at the origin.
pub open spec fn rows(ls: Seq<Seq<u8>>, n: nat) -> Option<Seq<(nat, int, int)>>
    decreases n,
{
    if n == 0 {
        Some(Seq::empty())
    } else {
        match rows(ls, (n - 1) as nat) {
            None => None,
            Some(rs) => if n < ls.len() {
                match row_of(ls[n as int]) {
                    Some(row) => Some(rs.push(row)),
                    None => None,
                }
            } else {
                Some(rs.push((0nat, 0int, 0int)))
            },
        }
    }
}

/// What `text` says of an instance: the three numbers of its first line
/// and its customers; `None` where the text is empty, a line has fewer than
/// three words, a word is no number, the customers are none or more than
/// `MAX_CUSTOMERS`, or a number is out of range.
pub open spec fn parsed_instance(text: Seq<u8>) -> Option<((nat, nat, nat), Seq<(nat, int, int)>)> {
    let ls = lines(text);
    if ls.len() == 0 {
        None
    } else {
        match header_of(ls[0]) {
            None => None,
            Some(head) => if head.0 < 1 || head.0 > MAX_CUSTOMERS || head.1 > usize::MAX || head.2
                > usize::MAX {
                None
            } else {
                match rows(ls, head.0) {
                    None => None,
                    Some(rs) => Some((head, rs)),
                }
            },
        }
    }
}

/// What the first line of an instance says.
fn read_header(line: &Vec<u8>) -> (res: Option<(u64, u64, u64)>)
    ensures
        match res {
            Some(h) => header_of(line@) == Some((h.0 as nat, h.1 as nat, h.2 as nat)),
            None => header_of(line@) is None,
        },
{
    let ws = split_words(line.as_slice());
    if ws.len() < 3 {
        return None;
    }
    let n = read_number(&ws[0]);
    let v = read_number(&ws[1]);
    let c = read_number(&ws[2]);
    match (n, v, c) {
        (Some(n), Some(v), Some(c)) => Some((n, v, c)),
        _ => None,
    }
}

/// What the line of a customer says.
fn read_row(line: &Vec<u8>) -> (res: Option<(usize, i64, i64)>)
    ensures
        match res {
            Some(row) => row_of(line@) == Some((row.0 as nat, row.1 as int, row.2 as int)),
            None => row_of(line@) is None,
        },
{
    let ws = split_words(line.as_slice());
    if ws.len() < 3 {
        return None;
    }
    let d = read_number(&ws[0]);
    let x = read_coord(&ws[1]);
    let y = read_coord(&ws[2]);
    match (d, x, y) {
        (Some(d), Some(x), Some(y)) => if d <= usize::MAX as u64 {
            Some((d as usize, x, y))
        } else {
            None
        },
        _ => None,
    }
}

/// Customers whose beginning does not read do not read.
pub proof fn lemma_rows_prefix(ls: Seq<Seq<u8>>, k: nat, n: nat)
    requires
        k <= n,
        rows(ls, k) is None,
    ensures
        rows(ls, n) is None,
    decreases n,
{
    if k < n {
        lemma_rows_prefix(ls, k, (n - 1) as nat);
    }
}

impl VRPInstance {
    /// The instance that `text` writes: on the first line the number of
    /// customers with the depot, the number of vehicles and their capacity;
    /// on each line after it a customer's demand and its two coordinates,
    /// the depot first. Coordinates are decimal fractions; they, and the
    /// distances, are kept in thousandths.
    ///
    /// Fails where `parsed_instance` gives nothing.
    pub fn new(text: &[u8]) -> (res: Result<Self, String>)
        ensures
            res is Ok <==> parsed_instance(text@) is Some,
            res matches Ok(inst) ==> {
                let (head, rs) = parsed_instance(text@)->Some_0;
                &&& inst.wf()
                &&& inst.is_euclidean()
                &&& inst.num_customers == head.0
                &&& inst.num_vehicles == head.1
                &&& inst.vehicle_capacity == head.2
                &&& rs.len() == head.0
                &&& forall|i: int|
                    0 <= i < rs.len() ==> (#[trigger] rs[i]) == (
                        inst.demand_of_customer@[i] as nat,
                        inst.x_coord_of_customer@[i] as int,
                        inst.y_coord_of_customer@[i] as int,
                    )
            },
    {
        let ls = split_lines(text);
        let ghost all = lines(text@);
        if ls.len() == 0 {
            return Err("the text is empty".to_string());
        }
        let (n, nv, cap) = match read_header(&ls[0]) {
            Some(head) => head,
            None => {
                return Err("invalid first line format".to_string());
            },
        };
        if n < 1 || n > MAX_CUSTOMERS as u64 || nv > usize::MAX as u64 || cap > usize::MAX as u64 {
            return Err("a number of the first line is out of range".to_string());
        }
        let n = n as usize;
        let mut demand: Vec<usize> = Vec::new();
        let mut x: Vec<i64> = Vec::new();
        let mut y: Vec<i64> = Vec::new();
        let ghost mut rs: Seq<(nat, int, int)> = Seq::empty();
        let mut i: usize = 0;
        while i < n
            invariant
                1 <= n,
                i <= n <= MAX_CUSTOMERS,
                all.len() > 0,
                header_of(all[0]) == Some((n as nat, nv as nat, cap as nat)),
                nv <= usize::MAX,
                cap <= usize::MAX,
                all == lines(text@),
                ls@.len() == all.len(),
                forall|k: int| 0 <= k < ls@.len() ==> (#[trigger] ls@[k])@ == all[k],
                rows(all, i as nat) == Some(rs),
                rs.len() == i,
                demand@.len() == i,
                x@.len() == i,
                y@.len() == i,
                forall|k: int|
                    0 <= k < i ==> (#[trigger] rs[k]) == (
                        demand@[k] as nat,
                        x@[k] as int,
                        y@[k] as int,
                    ),
                forall|k: int| 0 <= k < i ==> -MAX_COORD <= #[trigger] x@[k] <= MAX_COORD,
                forall|k: int| 0 <= k < i ==> -MAX_COORD <= #[trigger] y@[k] <= MAX_COORD,
            decreases n - i,
        {
            let row = if i + 1 < ls.len() {
                match read_row(&ls[i + 1]) {
                    Some(row) => row,
                    None => {
                        proof {
                            assert(rows(all, (i + 1) as nat) is None);
                            lemma_rows_prefix(all, (i + 1) as nat, n as nat);
                        }
                        return Err("invalid customer data format".to_string());
                    },
                }
            } else {
                (0, 0, 0)
            };
            demand.push(row.0);
            x.push(row.1);
            y.push(row.2);
            proof {
                rs = rs.push((row.0 as nat, row.1 as int, row.2 as int));
            }
            i = i + 1;
        }
        let ghost demand_seq = demand@;
        let ghost x_seq = x@;
        let ghost y_seq = y@;
        let res = Self::from_values(nv as usize, cap as usize, demand, x, y);
        proof {
            assert(Self::values_ok(demand_seq, x_seq, y_seq));
        }
        res
    }
}

} // verus!
