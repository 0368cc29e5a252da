use vstd::prelude::*;
use crate::route::{customers_of, Route};
use crate::solution::VRPSolution;
use crate::stop::Stop;
use crate::text::{
    all_ascii, ascii_string, chars_of, digit, digits, join, lemma_digits, lemma_words_join,
    parse_nat, read_number, split_words, words, write_byte, write_number,
};
use crate::vrp_instance::VRPInstance;
use vstd::string::StringExecFns;

verus! {

/// The numbers that write the route `stops`: the depot, the customers in
/// order, the depot.
pub open spec fn route_tokens(stops: Seq<Stop>) -> Seq<nat> {
    seq![0nat] + Seq::new(stops.len(), |i: int| stops[i].cust_no() as nat) + seq![0nat]
}

/// The numbers that write the routes of `plan`, one route after the other.
pub open spec fn plan_tokens(plan: Seq<Seq<Stop>>) -> Seq<nat>
    decreases plan.len(),
{
    if plan.len() == 0 {
        Seq::empty()
    } else {
        plan_tokens(plan.drop_last()) + route_tokens(plan.last())
    }
}

/// The text of a solution: the routes, one after the other, each framed by
/// depot markers, all numbers one blank apart.
pub open spec fn solution_text(plan: Seq<Seq<Stop>>) -> Seq<u8> {
    join(plan_tokens(plan))
}

/// The text of a cost: the whole length units, a point, and the three
/// places of the thousandths.
pub open spec fn fixed_text(v: nat) -> Seq<u8> {
    digits(v / 1000) + seq![46u8, digit((v / 100 % 10) as int), digit((v / 10 % 10) as int), digit(
        (v % 10) as int,
    )]
}

/// The lines of the routes of `plan`, each route on a line of its own.
pub open spec fn route_lines(plan: Seq<Seq<Stop>>) -> Seq<u8>
    decreases plan.len(),
{
    if plan.len() == 0 {
        Seq::empty()
    } else {
        route_lines(plan.drop_last()) + join(route_tokens(plan.last())) + seq![10u8]
    }
}

/// The text of a solution file: the cost and the number of vehicles on the
/// first line, then the routes, one to a line.
pub open spec fn file_text(plan: Seq<Seq<Stop>>, cost: nat) -> Seq<u8> {
    fixed_text(cost) + seq![32u8] + digits(plan.len()) + seq![10u8] + route_lines(plan)
}

/// The text of a stop: its customer number and, in brackets, its demand.
pub open spec fn stop_text(stop: Stop) -> Seq<u8> {
    digits(stop.cust_no() as nat) + seq![40u8] + digits(stop.capacity() as nat) + seq![41u8]
}

/// The texts of `stops`, an arrow between neighbours.
pub open spec fn stops_text(stops: Seq<Stop>) -> Seq<u8>
    decreases stops.len(),
{
    if stops.len() == 0 {
        Seq::empty()
    } else if stops.len() == 1 {
        stop_text(stops[0])
    } else {
        stops_text(stops.drop_last()) + seq![32u8, 45u8, 62u8, 32u8] + stop_text(stops.last())
    }
}

/// The text of a route for the eye: `r`, its number, and in square
/// brackets its stops and, after `--c`, its load.
pub open spec fn route_text(id: nat, stops: Seq<Stop>, load: nat) -> Seq<u8> {
    seq![114u8] + digits(id) + seq![91u8] + stops_text(stops) + seq![45u8, 45u8, 99u8] + digits(
        load,
    ) + seq![93u8]
}

/// Appends `tokens` to `out`, one blank between neighbours.
fn write_joined(out: &mut Vec<u8>, tokens: &Vec<u64>)
    ensures
        final(out)@ == old(out)@ + join(Seq::new(tokens@.len(), |i: int| tokens@[i] as nat)),
        all_ascii(old(out)@) ==> all_ascii(final(out)@),
{
    let ghost all = Seq::new(tokens@.len(), |i: int| tokens@[i] as nat);
    let ghost start = out@;
    let mut k: usize = 0;
    proof {
        assert(all.take(0) =~= Seq::<nat>::empty());
        assert(out@ =~= start + join(all.take(0)));
    }
    while k < tokens.len()
        invariant
            k <= tokens@.len(),
            all == Seq::new(tokens@.len(), |i: int| tokens@[i] as nat),
            out@ == start + join(all.take(k as int)),
            all_ascii(start) ==> all_ascii(out@),
        decreases tokens@.len() - k,
    {
        proof {
            assert(all.take(k + 1).drop_last() =~= all.take(k as int));
            assert(all.take(k + 1).last() == tokens@[k as int] as nat);
        }
        let ghost prior = out@;
        if k > 0 {
            write_byte(out, 32);
        }
        write_number(out, tokens[k]);
        proof {
            if k > 0 {
                assert(out@ =~= start + (join(all.take(k as int)) + seq![32u8] + digits(
                    tokens@[k as int] as nat,
                )));
            } else {
                assert(join(all.take(0)) =~= Seq::<u8>::empty());
                assert(out@ =~= start + digits(tokens@[k as int] as nat));
            }
        }
        k = k + 1;
    }
    proof {
        assert(all.take(k as int) =~= all);
    }
}

/// The decimal digits of `n` as text.
fn number_string(n: u64) -> (s: String)
    ensures
        s@ == chars_of(digits(n as nat)),
{
    let mut out: Vec<u8> = Vec::new();
    write_number(&mut out, n);
    proof {
        assert(out@ =~= digits(n as nat));
    }
    ascii_string(out)
}

impl VRPInstance {
    /// The size of the instance for the eye: the number of customers, the
    /// number of vehicles and their capacity, each on a line of its own.
    pub fn to_string(&self) -> (s: String)
        ensures
            s@ == "Number of customers: "@ + chars_of(digits(self.num_customers as nat)) + "\n"@
                + "Number of vehicles: "@ + chars_of(digits(self.num_vehicles as nat)) + "\n"@
                + "Vehicle capacity: "@ + chars_of(digits(self.vehicle_capacity as nat)) + "\n"@,
    {
        let mut s = String::from_str("Number of customers: ");
        s.append(number_string(self.num_customers as u64).as_str());
        s.append("\n");
        s.append("Number of vehicles: ");
        s.append(number_string(self.num_vehicles as u64).as_str());
        s.append("\n");
        s.append("Vehicle capacity: ");
        s.append(number_string(self.vehicle_capacity as u64).as_str());
        s.append("\n");
        s
    }
}

impl Route {
    /// The text of the route for the eye: `r`, its number, and in square
    /// brackets its stops, each with its demand, and, after `--c`, its
    /// load.
    pub fn to_string(&self) -> (s: String)
        ensures
            s@ == chars_of(
                route_text(self.spec_id() as nat, self@, self.spec_used_capacity() as nat),
            ),
    {
        let mut out: Vec<u8> = Vec::new();
        write_byte(&mut out, 114);
        write_number(&mut out, self.id() as u64);
        write_byte(&mut out, 91);
        let ghost head = out@;
        let stops = self.stops();
        let mut k: usize = 0;
        proof {
            assert(self@.take(0) =~= Seq::<Stop>::empty());
            assert(out@ =~= head + stops_text(self@.take(0)));
        }
        while k < stops.len()
            invariant
                k <= stops@.len(),
                stops@ == self@,
                all_ascii(out@),
                out@ == head + stops_text(self@.take(k as int)),
            decreases stops@.len() - k,
        {
            if k > 0 {
                write_byte(&mut out, 32);
                write_byte(&mut out, 45);
                write_byte(&mut out, 62);
                write_byte(&mut out, 32);
            }
            write_number(&mut out, stops[k].cust_no() as u64);
            write_byte(&mut out, 40);
            write_number(&mut out, stops[k].capacity() as u64);
            write_byte(&mut out, 41);
            proof {
                assert(self@.take(k + 1).drop_last() =~= self@.take(k as int));
                assert(self@.take(k + 1).last() == self@[k as int]);
                if k > 0 {
                    assert(out@ =~= head + (stops_text(self@.take(k as int)) + seq![
                        32u8,
                        45u8,
                        62u8,
                        32u8,
                    ] + stop_text(self@[k as int])));
                } else {
                    assert(stops_text(self@.take(0)) =~= Seq::<u8>::empty());
                    assert(out@ =~= head + stop_text(self@[k as int]));
                }
            }
            k = k + 1;
        }
        write_byte(&mut out, 45);
        write_byte(&mut out, 45);
        write_byte(&mut out, 99);
        write_number(&mut out, self.used_capacity() as u64);
        write_byte(&mut out, 93);
        proof {
            assert(self@.take(k as int) =~= self@);
            assert(out@ =~= route_text(
                self.spec_id() as nat,
                self@,
                self.spec_used_capacity() as nat,
            ));
        }
        ascii_string(out)
    }

    /// The numbers that write the route.
    pub fn to_tokens(&self) -> (tokens: Vec<u64>)
        ensures
            Seq::new(tokens@.len(), |i: int| tokens@[i] as nat) == route_tokens(self@),
    {
        let mut tokens: Vec<u64> = Vec::new();
        tokens.push(0);
        let stops = self.stops();
        let mut k: usize = 0;
        while k < stops.len()
            invariant
                k <= stops@.len(),
                stops@ == self@,
                tokens@.len() == k + 1,
                tokens@[0] == 0,
                forall|i: int| 0 <= i < k ==> #[trigger] tokens@[i + 1] == self@[i].cust_no(),
            decreases stops@.len() - k,
        {
            tokens.push(stops[k].cust_no() as u64);
            k = k + 1;
        }
        tokens.push(0);
        proof {
            assert(Seq::new(tokens@.len(), |i: int| tokens@[i] as nat) =~= route_tokens(self@)) by {
                assert forall|i: int| 0 <= i < tokens@.len() implies tokens@[i] as nat
                    == route_tokens(self@)[i] by {
                    if 0 < i < tokens@.len() - 1 {
                        assert(tokens@[(i - 1) + 1] == self@[i - 1].cust_no());
                    }
                }
            }
        }
        tokens
    }
}

impl VRPSolution {
    /// The numbers that write the routes, one route after the other.
    pub fn to_tokens(&self) -> (tokens: Vec<u64>)
        ensures
            Seq::new(tokens@.len(), |i: int| tokens@[i] as nat) == plan_tokens(self.plan()),
    {
        let mut tokens: Vec<u64> = Vec::new();
        let mut r: usize = 0;
        proof {
            assert(self.plan().take(0) =~= Seq::<Seq<Stop>>::empty());
            assert(Seq::new(tokens@.len(), |i: int| tokens@[i] as nat) =~= plan_tokens(
                self.plan().take(0),
            ));
        }
        while r < self.routes.len()
            invariant
                r <= self.routes@.len(),
                Seq::new(tokens@.len(), |i: int| tokens@[i] as nat) == plan_tokens(
                    self.plan().take(r as int),
                ),
            decreases self.routes@.len() - r,
        {
            let mut more = self.routes[r].to_tokens();
            let ghost before = tokens@;
            let ghost added = more@;
            tokens.append(&mut more);
            proof {
                assert(self.plan().take(r + 1).drop_last() =~= self.plan().take(r as int));
                assert(self.plan().take(r + 1).last() == self.routes@[r as int]@);
                assert(Seq::new(tokens@.len(), |i: int| tokens@[i] as nat) =~= Seq::new(
                    before.len(),
                    |i: int| before[i] as nat,
                ) + Seq::new(added.len(), |i: int| added[i] as nat));
            }
            r = r + 1;
        }
        proof {
            assert(self.plan().take(r as int) =~= self.plan());
        }
        tokens
    }

    /// The text of the solution as bytes.
    pub fn to_bytes(&self) -> (out: Vec<u8>)
        ensures
            out@ == solution_text(self.plan()),
            all_ascii(out@),
    {
        let mut out: Vec<u8> = Vec::new();
        let tokens = self.to_tokens();
        write_joined(&mut out, &tokens);
        proof {
            assert(out@ =~= solution_text(self.plan()));
        }
        out
    }

    /// The text of the solution: the routes, one after the other, each
    /// framed by depot markers, all numbers one blank apart.
    pub fn to_string(&self) -> (s: String)
        ensures
            s@ == chars_of(solution_text(self.plan())),
    {
        ascii_string(self.to_bytes())
    }

    /// The text of a solution file: the cost and the number of vehicles on
    /// the first line, then the routes, one to a line.
    pub fn to_file_string(&self) -> (s: String)
        requires
            self.spec_cost() <= u64::MAX,
        ensures
            s@ == chars_of(file_text(self.plan(), self.spec_cost() as nat)),
    {
        let mut out: Vec<u8> = Vec::new();
        let cost = self.cost();
        write_number(&mut out, cost / 1000);
        write_byte(&mut out, 46);
        write_byte(&mut out, 48 + (cost / 100 % 10) as u8);
        write_byte(&mut out, 48 + (cost / 10 % 10) as u8);
        write_byte(&mut out, 48 + (cost % 10) as u8);
        write_byte(&mut out, 32);
        write_number(&mut out, self.routes.len() as u64);
        write_byte(&mut out, 10);
        let ghost head = out@;
        proof {
            assert(head =~= fixed_text(cost as nat) + seq![32u8] + digits(self.plan().len())
                + seq![10u8]);
            assert(self.plan().take(0) =~= Seq::<Seq<Stop>>::empty());
            assert(out@ =~= head + route_lines(self.plan().take(0)));
        }
        let mut r: usize = 0;
        while r < self.routes.len()
            invariant
                r <= self.routes@.len(),
                all_ascii(out@),
                out@ == head + route_lines(self.plan().take(r as int)),
            decreases self.routes@.len() - r,
        {
            let tokens = self.routes[r].to_tokens();
            let ghost prior = out@;
            write_joined(&mut out, &tokens);
            write_byte(&mut out, 10);
            proof {
                assert(self.plan().take(r + 1).drop_last() =~= self.plan().take(r as int));
                assert(self.plan().take(r + 1).last() == self.routes@[r as int]@);
                assert(out@ =~= head + route_lines(self.plan().take(r + 1)));
            }
            r = r + 1;
        }
        proof {
            assert(self.plan().take(r as int) =~= self.plan());
            assert(out@ =~= file_text(self.plan(), cost as nat));
        }
        ascii_string(out)
    }

    /// Reading the text of a solution gives back its routes that serve any
    /// customer, in their order, each with its customers in the order of
    /// the visits; and the cost of each route is the cost of visiting its
    /// customers in that order, by the distance matrix.
    pub proof fn lemma_text_round_trip(&self, inst: &VRPInstance)
        requires
            self.wf(inst),
        ensures
            parsed_routes(solution_text(self.plan())) == Some(visits(self.plan())),
            forall|r: int|
                0 <= r < self.routes@.len() ==> (#[trigger] self.routes@[r]).spec_cost()
                    == crate::route::route_cost(
                    inst.distance_matrix@,
                    customers_of(self.plan()[r]),
                ),
    {
        assert forall|r: int, i: int|
            0 <= r < self.plan().len() && 0 <= i < self.plan()[r].len() implies (
        #[trigger] self.plan()[r][i]).cust_no() > 0 by {
            assert(self.routes@[r].wf());
            assert(self.routes@[r].customers()[i] == self.plan()[r][i].cust_no());
        }
        lemma_round_trip(self.plan());
        assert forall|r: int| 0 <= r < self.routes@.len() implies (
        #[trigger] self.routes@[r]).spec_cost() == crate::route::route_cost(
            inst.distance_matrix@,
            customers_of(self.plan()[r]),
        ) by {
            assert(self.routes@[r].wf());
        }
    }
}

/// The number that the word `tok` writes, where it writes one that fits 64
/// bits.
pub open spec fn parse_u64(tok: Seq<u8>) -> Option<nat> {
    match parse_nat(tok) {
        Some(v) => if v <= u64::MAX {
            Some(v)
        } else {
            None
        },
        None => None,
    }
}

/// The numbers that the words `ws` write; `None` where one of them writes
/// none.
pub open spec fn read_all(ws: Seq<Seq<u8>>) -> Option<Seq<nat>>
    decreases ws.len(),
{
    if ws.len() == 0 {
        Some(Seq::empty())
    } else {
        match (read_all(ws.drop_last()), parse_u64(ws.last())) {
            (Some(vs), Some(v)) => Some(vs.push(v)),
            _ => None,
        }
    }
}

/// What reading the number `t` makes of the routes read so far and the
/// route that is being read: a depot marker ends the route, if there is
/// one; a customer goes on it.
pub open spec fn read_step(state: (Seq<Seq<nat>>, Seq<nat>), t: nat) -> (Seq<Seq<nat>>, Seq<nat>) {
    if t == 0 {
        if state.1.len() > 0 {
            (state.0.push(state.1), Seq::empty())
        } else {
            (state.0, Seq::empty())
        }
    } else {
        (state.0, state.1.push(t))
    }
}

/// What reading the numbers `tokens`, in turn, makes of `state`.
pub open spec fn read_run(state: (Seq<Seq<nat>>, Seq<nat>), tokens: Seq<nat>) -> (
    Seq<Seq<nat>>,
    Seq<nat>,
)
    decreases tokens.len(),
{
    if tokens.len() == 0 {
        state
    } else {
        read_step(read_run(state, tokens.drop_last()), tokens.last())
    }
}

/// The routes that the numbers `tokens` write: the stretches of customers
/// that a depot marker ends.
pub open spec fn routes_of(tokens: Seq<nat>) -> Seq<Seq<nat>> {
    read_run((Seq::empty(), Seq::empty()), tokens).0
}

/// The routes that `text` writes; `None` where a word is no number.
pub open spec fn parsed_routes(text: Seq<u8>) -> Option<Seq<Seq<nat>>> {
    match read_all(words(text)) {
        Some(vs) => Some(routes_of(vs)),
        None => None,
    }
}

/// The customers of the routes of `plan` that serve any, route by route.
pub open spec fn visits(plan: Seq<Seq<Stop>>) -> Seq<Seq<nat>>
    decreases plan.len(),
{
    if plan.len() == 0 {
        Seq::empty()
    } else if plan.last().len() > 0 {
        visits(plan.drop_last()).push(
            Seq::new(plan.last().len(), |i: int| plan.last()[i].cust_no() as nat),
        )
    } else {
        visits(plan.drop_last())
    }
}

/// Reading goes on from where it stood.
pub proof fn lemma_read_run_concat(state: (Seq<Seq<nat>>, Seq<nat>), a: Seq<nat>, b: Seq<nat>)
    ensures
        read_run(state, a + b) == read_run(read_run(state, a), b),
    decreases b.len(),
{
    if b.len() == 0 {
        assert(a + b =~= a);
    } else {
        assert((a + b).drop_last() =~= a + b.drop_last());
        lemma_read_run_concat(state, a, b.drop_last());
    }
}

/// Customers go on the route that is being read.
pub proof fn lemma_read_customers(state: (Seq<Seq<nat>>, Seq<nat>), custs: Seq<nat>)
    requires
        forall|i: int| 0 <= i < custs.len() ==> #[trigger] custs[i] > 0,
    ensures
        read_run(state, custs) == (state.0, state.1 + custs),
    decreases custs.len(),
{
    if custs.len() == 0 {
        assert(state.1 + custs =~= state.1);
    } else {
        lemma_read_customers(state, custs.drop_last());
        assert((state.1 + custs.drop_last()).push(custs.last()) =~= state.1 + custs);
    }
}

/// The routes that the numbers of a plan write are its routes that serve
/// any customer.
pub proof fn lemma_routes_of_plan(plan: Seq<Seq<Stop>>)
    requires
        forall|r: int, i: int|
            0 <= r < plan.len() && 0 <= i < plan[r].len() ==> (#[trigger] plan[r][i]).cust_no()
                > 0,
    ensures
        read_run((Seq::empty(), Seq::empty()), plan_tokens(plan)) == (
            visits(plan),
            Seq::<nat>::empty(),
        ),
    decreases plan.len(),
{
    if plan.len() > 0 {
        let init = plan.drop_last();
        assert forall|r: int, i: int| 0 <= r < init.len() && 0 <= i < init[r].len() implies (
        #[trigger] init[r][i]).cust_no() > 0 by {
            assert(init[r] == plan[r]);
        }
        lemma_routes_of_plan(init);
        let custs = Seq::new(plan.last().len(), |i: int| plan.last()[i].cust_no() as nat);
        let start = (Seq::<Seq<nat>>::empty(), Seq::<nat>::empty());
        let s0 = (visits(init), Seq::<nat>::empty());
        lemma_read_run_concat(start, plan_tokens(init), route_tokens(plan.last()));
        assert(route_tokens(plan.last()) =~= (seq![0nat] + custs) + seq![0nat]);
        lemma_read_run_concat(s0, seq![0nat] + custs, seq![0nat]);
        lemma_read_run_concat(s0, seq![0nat], custs);
        assert(seq![0nat].drop_last() =~= Seq::<nat>::empty());
        assert(read_run(s0, seq![0nat]) == read_step(read_run(s0, Seq::empty()), 0));
        assert(read_run(s0, seq![0nat]) == s0);
        assert forall|i: int| 0 <= i < custs.len() implies #[trigger] custs[i] > 0 by {
            assert(plan[plan.len() - 1][i].cust_no() > 0);
        }
        lemma_read_customers(s0, custs);
        assert(s0.1 + custs =~= custs);
        let s1 = (visits(init), custs);
        assert(read_run(s1, seq![0nat]) == read_step(read_run(s1, Seq::empty()), 0));
    }
}

/// The digits of numbers that fit read as the numbers.
pub proof fn lemma_read_all_digits(tokens: Seq<nat>)
    requires
        forall|i: int| 0 <= i < tokens.len() ==> #[trigger] tokens[i] <= u64::MAX,
    ensures
        read_all(tokens.map_values(|t: nat| digits(t))) == Some(tokens),
    decreases tokens.len(),
{
    let ws = tokens.map_values(|t: nat| digits(t));
    if tokens.len() > 0 {
        assert(ws.drop_last() =~= tokens.drop_last().map_values(|t: nat| digits(t)));
        lemma_read_all_digits(tokens.drop_last());
        lemma_digits(tokens.last());
        assert(ws.last() == digits(tokens.last()));
        assert(tokens.drop_last().push(tokens.last()) =~= tokens);
    } else {
        assert(Seq::<nat>::empty() =~= tokens);
    }
}

/// The numbers of a plan fit 16 bits.
pub proof fn lemma_plan_tokens_small(plan: Seq<Seq<Stop>>)
    ensures
        forall|i: int| 0 <= i < plan_tokens(plan).len() ==> #[trigger] plan_tokens(plan)[i] <= 0xffff,
    decreases plan.len(),
{
    if plan.len() > 0 {
        lemma_plan_tokens_small(plan.drop_last());
        let a = plan_tokens(plan.drop_last());
        let b = route_tokens(plan.last());
        assert forall|i: int| 0 <= i < plan_tokens(plan).len() implies #[trigger] plan_tokens(
            plan,
        )[i] <= 0xffff by {
            if i < a.len() {
                assert(plan_tokens(plan)[i] == a[i]);
            } else {
                assert(plan_tokens(plan)[i] == b[i - a.len()]);
            }
        }
    }
}

/// Reading the text of a solution gives back its routes that serve any
/// customer, in their order, each with its customers in the order of the
/// visits.
pub proof fn lemma_round_trip(plan: Seq<Seq<Stop>>)
    requires
        forall|r: int, i: int|
            0 <= r < plan.len() && 0 <= i < plan[r].len() ==> (#[trigger] plan[r][i]).cust_no()
                > 0,
    ensures
        parsed_routes(solution_text(plan)) == Some(visits(plan)),
{
    let ts = plan_tokens(plan);
    lemma_plan_tokens_small(plan);
    lemma_routes_of_plan(plan);
    lemma_words_join(ts);
    assert forall|i: int| 0 <= i < ts.len() implies #[trigger] ts[i] <= u64::MAX by {}
    lemma_read_all_digits(ts);
}

/// The routes that `text` writes: the stretches of customers that a depot
/// marker ends.
///
/// `None` where a word is no number that fits 64 bits.
pub fn parse_routes(text: &[u8]) -> (res: Option<Vec<Vec<u64>>>)
    ensures
        match res {
            Some(routes) => parsed_routes(text@) == Some(
                Seq::new(
                    routes@.len(),
                    |r: int| Seq::new(routes@[r]@.len(), |i: int| routes@[r]@[i] as nat),
                ),
            ),
            None => parsed_routes(text@) is None,
        },
{
    let ws = split_words(text);
    let ghost all = words(text@);
    let mut routes: Vec<Vec<u64>> = Vec::new();
    let mut route: Vec<u64> = Vec::new();
    let ghost mut values: Seq<nat> = Seq::empty();
    let mut k: usize = 0;
    proof {
        assert(all.take(0) =~= Seq::<Seq<u8>>::empty());
        assert(Seq::new(
            routes@.len(),
            |r: int| Seq::new(routes@[r]@.len(), |i: int| routes@[r]@[i] as nat),
        ) =~= Seq::<Seq<nat>>::empty());
        assert(Seq::new(route@.len(), |i: int| route@[i] as nat) =~= Seq::<nat>::empty());
    }
    while k < ws.len()
        invariant
            k <= ws@.len(),
            all == words(text@),
            ws@.len() == all.len(),
            forall|j: int| 0 <= j < ws@.len() ==> (#[trigger] ws@[j])@ == all[j],
            read_all(all.take(k as int)) == Some(values),
            values.len() == k,
            read_run((Seq::empty(), Seq::empty()), values) == (
                Seq::new(
                    routes@.len(),
                    |r: int| Seq::new(routes@[r]@.len(), |i: int| routes@[r]@[i] as nat),
                ),
                Seq::new(route@.len(), |i: int| route@[i] as nat),
            ),
        decreases ws@.len() - k,
    {
        proof {
            assert(all.take(k + 1).drop_last() =~= all.take(k as int));
            assert(all.take(k + 1).last() == ws@[k as int]@);
        }
        let v = match read_number(&ws[k]) {
            Some(v) => v,
            None => {
                proof {
                    lemma_read_all_prefix(all, k + 1);
                }
                return None;
            },
        };
        let ghost old_routes = Seq::new(
            routes@.len(),
            |r: int| Seq::new(routes@[r]@.len(), |i: int| routes@[r]@[i] as nat),
        );
        let ghost old_route = Seq::new(route@.len(), |i: int| route@[i] as nat);
        if v == 0 {
            if route.len() > 0 {
                routes.push(route);
                route = Vec::new();
            }
        } else {
            route.push(v);
        }
        proof {
            let grown = values.push(v as nat);
            assert(grown.drop_last() =~= values);
            let new_routes = Seq::new(
                routes@.len(),
                |r: int| Seq::new(routes@[r]@.len(), |i: int| routes@[r]@[i] as nat),
            );
            let new_route = Seq::new(route@.len(), |i: int| route@[i] as nat);
            if v == 0 {
                if old_route.len() > 0 {
                    assert(new_routes =~= old_routes.push(old_route));
                } else {
                    assert(new_routes =~= old_routes);
                }
                assert(new_route =~= Seq::<nat>::empty());
            } else {
                assert(new_routes =~= old_routes);
                assert(new_route =~= old_route.push(v as nat));
            }
            values = grown;
        }
        k = k + 1;
    }
    proof {
        assert(all.take(k as int) =~= all);
    }
    Some(routes)
}

/// Words whose beginning does not read as numbers do not read as numbers.
pub proof fn lemma_read_all_prefix(ws: Seq<Seq<u8>>, k: int)
    requires
        0 <= k <= ws.len(),
        read_all(ws.take(k)) is None,
    ensures
        read_all(ws) is None,
    decreases ws.len(),
{
    if k < ws.len() {
        assert(ws.drop_last().take(k) =~= ws.take(k));
        lemma_read_all_prefix(ws.drop_last(), k);
    } else {
        assert(ws.take(k) =~= ws);
    }
}

} // verus!
