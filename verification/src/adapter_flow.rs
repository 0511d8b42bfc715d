//! How many samples pass through an adapter between a host and a processor, how many wait,
//! and how much silence the host gets.
use vstd::prelude::*;

verus! {

/// The number of samples that wait, and those that were lost or made up so far.
pub struct AdapterFlow {
    /// Samples that wait to be processed.
    pub input: nat,
    /// Processed samples that wait for the host.
    pub output: nat,
    /// Samples from the host for which there was no room.
    pub dropped: nat,
    /// Processed samples for which there was no room.
    pub lost: nat,
    /// Samples of silence that the host got for want of processed ones.
    pub filled: nat,
}

pub open spec fn min_of(a: nat, b: nat) -> nat {
    if a < b {
        a
    } else {
        b
    }
}

impl AdapterFlow {
    /// No sample has come or gone.
    pub open spec fn start() -> AdapterFlow {
        AdapterFlow { input: 0, output: 0, dropped: 0, lost: 0, filled: 0 }
    }

    /// The three counters go up to `limit` at most.
    pub open spec fn fits(self, limit: nat) -> bool {
        self.dropped <= limit && self.lost <= limit && self.filled <= limit
    }

    /// How many of `offered` samples there is room for.
    pub open spec fn accepted(self, capacity: nat, offered: nat) -> nat {
        min_of(offered, (capacity - self.input) as nat)
    }

    /// How many whole blocks there are once `offered` more samples have come.
    pub open spec fn blocks(self, block: nat, capacity: nat, offered: nat) -> nat {
        (self.input + self.accepted(capacity, offered)) / block
    }

    /// How many of `wanted` samples the host gets once `offered` more have come.
    pub open spec fn delivered(
        self,
        block: nat,
        capacity: nat,
        offered: nat,
        wanted: nat,
    ) -> nat {
        min_of(wanted, self.output + self.blocks(block, capacity, offered) * block)
    }

    /// After a call in which the host offers `offered` samples and wants `wanted`.
    pub open spec fn after_call(
        self,
        block: nat,
        capacity: nat,
        offered: nat,
        wanted: nat,
    ) -> AdapterFlow {
        let accepted = self.accepted(capacity, offered);
        let processed = self.blocks(block, capacity, offered) * block;
        let delivered = self.delivered(block, capacity, offered, wanted);
        let left = (self.output + processed - delivered) as nat;
        AdapterFlow {
            input: (self.input + accepted - processed) as nat,
            output: min_of(left, capacity),
            dropped: (self.dropped + offered - accepted) as nat,
            lost: (self.lost + left - min_of(left, capacity)) as nat,
            filled: (self.filled + wanted - delivered) as nat,
        }
    }
}

/// The silence before the first sound, for a host that calls with blocks of `host`
/// samples: all calls but the one that completes the first block come back silent.
pub open spec fn initial_latency(block: nat, host: nat) -> nat {
    if host == 0 || host >= block {
        0
    } else {
        (((block + host - 1) as nat / host - 1) * host) as nat
    }
}

/// The latency is the largest multiple of `host` below `block`.
pub proof fn lemma_initial_latency(block: nat, host: nat)
    requires
        0 < host < block,
    ensures
        initial_latency(block, host) == ((block - 1) / host as int) * host,
        1 <= (block - 1) / host as int,
        (block + host - 1) / host as int == (block - 1) / host as int + 1,
        ((block - 1) / host as int) * host < block <= ((block - 1) / host as int) * host + host,
{
    let h = host as int;
    let full = (block - 1) / h;
    let rest = (block - 1) % h;
    vstd::arithmetic::div_mod::lemma_fundamental_div_mod(block - 1, h);
    assert((full + 1) * h == full * h + h) by (nonlinear_arith);
    assert(h * full == full * h) by (nonlinear_arith);
    vstd::arithmetic::div_mod::lemma_fundamental_div_mod_converse(
        block + host - 1,
        h,
        full + 1,
        rest,
    );
    assert(full >= 1) by (nonlinear_arith)
        requires
            block - 1 == h * full + rest,
            0 <= rest < h,
            h <= block - 1,
    ;
}

/// The flow after `calls` calls of a host that offers and wants `host` samples each time.
pub open spec fn flow_after(calls: nat, block: nat, capacity: nat, host: nat) -> AdapterFlow
    decreases calls,
{
    if calls == 0 {
        AdapterFlow::start()
    } else {
        flow_after((calls - 1) as nat, block, capacity, host).after_call(
            block,
            capacity,
            host,
            host,
        )
    }
}

/// What one call does when there is room for what the host offers.
pub proof fn lemma_call_with_room(
    flow: AdapterFlow,
    block: nat,
    capacity: nat,
    host: nat,
)
    requires
        block > 0,
        flow.input + host <= capacity,
    ensures
        ({
            let next = flow.after_call(block, capacity, host, host);
            let processed = flow.input + host - next.input;
            &&& next.dropped == flow.dropped
            &&& next.input == (flow.input + host) % block
            &&& next.input < block
            &&& processed == flow.blocks(block, capacity, host) * block
            &&& next.filled + flow.input + flow.output == flow.filled + next.input + next.output + (
            next.lost - flow.lost)
            &&& next.output <= capacity
            &&& next.lost > flow.lost ==> next.output == capacity
            &&& next.filled == if flow.filled + host >= flow.filled + flow.output + processed {
                flow.filled + host - flow.output - processed
            } else {
                flow.filled as int
            }
        }),
{
    let total = flow.input + host;
    vstd::arithmetic::div_mod::lemma_fundamental_div_mod(total as int, block as int);
    assert(block * (total / block) == (total / block) * block) by (nonlinear_arith);
}

/// `divisor` goes into both lengths.
pub open spec fn divides_both(divisor: nat, block: nat, host: nat) -> bool {
    divisor > 0 && block % divisor == 0 && host % divisor == 0
}

/// Adding a multiple of `divisor` to another and taking the remainder by a third gives a
/// multiple again.
proof fn lemma_remainder_divides(a: nat, b: nat, block: nat, divisor: nat)
    requires
        block > 0,
        divisor > 0,
        a % divisor == 0,
        b % divisor == 0,
        block % divisor == 0,
    ensures
        ((a + b) % block) % divisor == 0,
{
    let g = divisor as int;
    let total = a + b;
    let rest = total % block;
    let x = a as int / g;
    let y = b as int / g;
    let z = block as int / g;
    let q = total as int / block as int;
    vstd::arithmetic::div_mod::lemma_fundamental_div_mod(a as int, g);
    vstd::arithmetic::div_mod::lemma_fundamental_div_mod(b as int, g);
    vstd::arithmetic::div_mod::lemma_fundamental_div_mod(block as int, g);
    vstd::arithmetic::div_mod::lemma_fundamental_div_mod(total as int, block as int);
    assert(rest == (x + y - z * q) * g) by (nonlinear_arith)
        requires
            a == g * x,
            b == g * y,
            block == g * z,
            a + b == block * q + rest,
    ;
    vstd::arithmetic::div_mod::lemma_fundamental_div_mod_converse(
        rest as int,
        g,
        x + y - z * q,
        0,
    );
}

/// A multiple of `divisor` below another is at least `divisor` below it.
proof fn lemma_multiples_apart(low: nat, high: nat, divisor: nat)
    requires
        divisor > 0,
        low % divisor == 0,
        high % divisor == 0,
        low < high,
    ensures
        low + divisor <= high,
{
    let g = divisor as int;
    vstd::arithmetic::div_mod::lemma_fundamental_div_mod(low as int, g);
    vstd::arithmetic::div_mod::lemma_fundamental_div_mod(high as int, g);
    let x = low as int / g;
    let y = high as int / g;
    assert(low + g <= high) by (nonlinear_arith)
        requires
            low == g * x,
            high == g * y,
            low < high,
            g > 0,
    ;
}

/// No sample is dropped as long as the capacity holds a block and what the host offers.
pub proof fn law_no_drop_with_room(
    flow: AdapterFlow,
    block: nat,
    capacity: nat,
    offered: nat,
    wanted: nat,
)
    requires
        flow.input < block,
        offered + block <= capacity + 1,
    ensures
        flow.accepted(capacity, offered) == offered,
        flow.after_call(block, capacity, offered, wanted).dropped == flow.dropped,
{
}

/// Once the samples that wait make up a block less any common divisor of the two lengths,
/// a host that wants as much as it offers gets no silence, and it stays that way.
pub proof fn law_reserve_prevents_silence(
    flow: AdapterFlow,
    block: nat,
    capacity: nat,
    host: nat,
    divisor: nat,
)
    requires
        flow.input < block,
        host + block <= capacity + 1,
        divides_both(divisor, block, host),
        flow.input % divisor == 0,
        flow.input + flow.output >= block - divisor,
    ensures
        ({
            let next = flow.after_call(block, capacity, host, host);
            &&& next.filled == flow.filled
            &&& next.dropped == flow.dropped
            &&& next.input < block
            &&& next.input % divisor == 0
            &&& next.input + next.output >= block - divisor
            &&& next.input + next.output + next.lost == flow.input + flow.output + flow.lost
        }),
{
    lemma_call_with_room(flow, block, capacity, host);
    let next = flow.after_call(block, capacity, host, host);
    lemma_remainder_divides(flow.input, host, block, divisor);
    lemma_multiples_apart(next.input, block, divisor);
}

/// A host that always calls with `host` samples loses none, and the silence it ever gets
/// is at most a block less any common divisor of the two lengths: there is no underrun
/// that comes back again and again.
pub proof fn law_silence_is_bounded(
    calls: nat,
    block: nat,
    capacity: nat,
    host: nat,
    divisor: nat,
)
    requires
        block > 0,
        host + block <= capacity + 1,
        divides_both(divisor, block, host),
    ensures
        ({
            let flow = flow_after(calls, block, capacity, host);
            &&& flow.dropped == 0
            &&& flow.lost == 0
            &&& flow.input < block
            &&& flow.input == (calls * host) % block
            &&& flow.input % divisor == 0
            &&& flow.input + flow.output == flow.filled
            &&& flow.filled <= block - divisor
        }),
    decreases calls,
{
    if calls == 0 {
        assert(0 * host == 0) by (nonlinear_arith);
        vstd::arithmetic::div_mod::lemma_fundamental_div_mod_converse(0, block as int, 0, 0);
        vstd::arithmetic::div_mod::lemma_fundamental_div_mod_converse(0, divisor as int, 0, 0);
        lemma_multiples_apart(0, block, divisor);
    } else {
        let earlier = (calls - 1) as nat;
        let flow = flow_after(earlier, block, capacity, host);
        law_silence_is_bounded(earlier, block, capacity, host, divisor);
        lemma_call_with_room(flow, block, capacity, host);
        let next = flow_after(calls, block, capacity, host);
        lemma_remainder_divides(flow.input, host, block, divisor);
        lemma_multiples_apart(next.input, block, divisor);
        assert(calls * host == earlier * host + host) by (nonlinear_arith)
            requires
                calls == earlier + 1,
        ;
        vstd::arithmetic::div_mod::lemma_add_mod_noop(
            (earlier * host) as int,
            host as int,
            block as int,
        );
        vstd::arithmetic::div_mod::lemma_add_mod_noop(flow.input as int, host as int, block as int);
        vstd::arithmetic::div_mod::lemma_mod_twice((earlier * host) as int, block as int);
    }
}

/// Silence that was handed out is never taken back.
pub proof fn law_silence_only_grows(
    calls: nat,
    later: nat,
    block: nat,
    capacity: nat,
    host: nat,
)
    requires
        calls <= later,
    ensures
        flow_after(calls, block, capacity, host).filled <= flow_after(
            later,
            block,
            capacity,
            host,
        ).filled,
    decreases later,
{
    if calls < later {
        law_silence_only_grows(calls, (later - 1) as nat, block, capacity, host);
    }
}

/// A host whose blocks are shorter than those that are processed first gets silence, for
/// exactly the theoretical latency, and the call that completes the first block is served
/// in full.
pub proof fn law_initial_silence(calls: nat, block: nat, capacity: nat, host: nat)
    requires
        0 < host < block,
        host + block <= capacity + 1,
    ensures
        calls * host <= initial_latency(block, host) ==> flow_after(
            calls,
            block,
            capacity,
            host,
        ).filled == calls * host,
        calls * host == initial_latency(block, host) + host ==> flow_after(
            calls,
            block,
            capacity,
            host,
        ).filled == initial_latency(block, host),
    decreases calls,
{
    lemma_initial_latency(block, host);
    let full = ((block - 1) / host as int) as nat;
    if calls == 0 {
        assert(0 * host == 0) by (nonlinear_arith);
    } else {
        let earlier = (calls - 1) as nat;
        assert(calls * host == earlier * host + host) by (nonlinear_arith)
            requires
                calls == earlier + 1,
        ;
        law_initial_silence(earlier, block, capacity, host);
        law_silence_is_bounded(earlier, block, capacity, host, 1);
        let flow = flow_after(earlier, block, capacity, host);
        lemma_call_with_room(flow, block, capacity, host);
        if calls * host <= full * host {
            vstd::arithmetic::div_mod::lemma_small_mod(earlier * host, block);
            vstd::arithmetic::div_mod::lemma_small_mod(calls * host, block);
        } else if calls * host == full * host + host {
            vstd::arithmetic::div_mod::lemma_small_mod(earlier * host, block);
            vstd::arithmetic::div_mod::lemma_fundamental_div_mod_converse(
                (calls * host) as int,
                block as int,
                1,
                calls * host - block,
            );
            assert(full * host >= host) by (nonlinear_arith)
                requires
                    full >= 1,
            ;
        }
    }
}

/// A host whose blocks are at least as long as those that are processed hears sound in its
/// first call.
pub proof fn law_long_blocks_sound_at_once(block: nat, capacity: nat, host: nat)
    requires
        0 < block <= host,
        host + block <= capacity + 1,
    ensures
        initial_latency(block, host) == 0,
        flow_after(1, block, capacity, host).filled < host,
{
    assert(flow_after(0, block, capacity, host) == AdapterFlow::start());
    lemma_call_with_room(AdapterFlow::start(), block, capacity, host);
}

/// Where the theoretical latency is a block less a common divisor of the two lengths, all
/// the silence comes first, and the stream never breaks again.
pub proof fn law_stream_never_breaks(
    calls: nat,
    block: nat,
    capacity: nat,
    host: nat,
    divisor: nat,
)
    requires
        0 < block,
        0 < host,
        host + block <= capacity + 1,
        divides_both(divisor, block, host),
        initial_latency(block, host) == block - divisor,
        calls * host >= initial_latency(block, host),
    ensures
        flow_after(calls, block, capacity, host).filled == initial_latency(block, host),
{
    law_silence_is_bounded(calls, block, capacity, host, divisor);
    if host < block {
        lemma_initial_latency(block, host);
        let full = ((block - 1) / host as int) as nat;
        law_initial_silence(full, block, capacity, host);
        assert(full <= calls) by (nonlinear_arith)
            requires
                calls * host >= full * host,
                host > 0,
        ;
        law_silence_only_grows(full, calls, block, capacity, host);
    }
}

/// Whatever a host offers and wants, neither queue ever holds more than the capacity.
pub proof fn law_queues_fit_capacity(
    flow: AdapterFlow,
    block: nat,
    capacity: nat,
    offered: nat,
    wanted: nat,
)
    requires
        0 < block <= capacity,
        flow.input < block,
    ensures
        flow.input + flow.accepted(capacity, offered) <= capacity,
        flow.after_call(block, capacity, offered, wanted).input < block,
        flow.after_call(block, capacity, offered, wanted).output <= capacity,
{
    let total = flow.input + flow.accepted(capacity, offered);
    vstd::arithmetic::div_mod::lemma_fundamental_div_mod(total as int, block as int);
    assert((total / block) * block == block * (total / block)) by (nonlinear_arith);
}

/// No processed sample is lost as long as the host wants as many samples as come to wait
/// beyond the capacity.
pub proof fn law_no_loss_with_room(
    flow: AdapterFlow,
    block: nat,
    capacity: nat,
    offered: nat,
    wanted: nat,
)
    requires
        0 < block <= capacity,
    ensures
        flow.after_call(block, capacity, offered, wanted).lost == flow.lost <==> flow.output
            + flow.blocks(block, capacity, offered) * block <= capacity + wanted,
{
}

/// The greatest common divisor, by Euclid's rule.
pub open spec fn gcd(a: nat, b: nat) -> nat
    decreases b,
{
    if b == 0 {
        a
    } else {
        gcd(b, a % b)
    }
}

/// The greatest common divisor goes into both numbers and is a combination of them.
proof fn lemma_gcd(a: nat, b: nat) -> (weights: (int, int))
    requires
        a > 0 || b > 0,
    ensures
        gcd(a, b) > 0,
        a % gcd(a, b) == 0,
        b % gcd(a, b) == 0,
        a * weights.0 + b * weights.1 == gcd(a, b),
    decreases b,
{
    if b == 0 {
        vstd::arithmetic::div_mod::lemma_mod_self_0(a as int);
        vstd::arithmetic::div_mod::lemma_fundamental_div_mod_converse(0, a as int, 0, 0);
        assert(a * 1int + b * 0int == a) by (nonlinear_arith)
            requires
                b == 0,
        ;
        (1, 0)
    } else {
        let g = gcd(a, b) as int;
        let rest = a % b;
        let times = a as int / b as int;
        let (x, y) = lemma_gcd(b, rest);
        vstd::arithmetic::div_mod::lemma_fundamental_div_mod(a as int, b as int);
        vstd::arithmetic::div_mod::lemma_fundamental_div_mod(b as int, g);
        vstd::arithmetic::div_mod::lemma_fundamental_div_mod(rest as int, g);
        let b_parts = b as int / g;
        let rest_parts = rest as int / g;
        assert(a == (b_parts * times + rest_parts) * g) by (nonlinear_arith)
            requires
                a == b * times + rest,
                b == g * b_parts,
                rest == g * rest_parts,
        ;
        vstd::arithmetic::div_mod::lemma_fundamental_div_mod_converse(
            a as int,
            g,
            b_parts * times + rest_parts,
            0,
        );
        assert(a * y + b * (x - times * y) == g) by (nonlinear_arith)
            requires
                a == b * times + rest,
                b * x + rest * y == g,
        ;
        (y, x - times * y)
    }
}

/// Within as many calls as a block has samples, a host that always calls with `host`
/// samples has been given exactly a block less the greatest common divisor of the two
/// lengths in silence. From then on every call is served in full.
pub proof fn law_reserve_settles(calls: nat, block: nat, capacity: nat, host: nat)
    requires
        block > 0,
        host + block <= capacity + 1,
        calls >= block,
    ensures
        flow_after(calls, block, capacity, host).filled == block - gcd(host, block),
        flow_after(calls, block, capacity, host).delivered(block, capacity, host, host) == host,
{
    let divisor = gcd(host, block);
    let g = divisor as int;
    let d = block as int;
    let (x, y) = lemma_gcd(host, block);
    let turn = ((-x) % d) as nat;
    let rounds = (-x) / d;
    vstd::arithmetic::div_mod::lemma_fundamental_div_mod(-x, d);
    // After `turn` calls the samples that wait fall short of a block by the divisor.
    assert(turn * host == (-(rounds * host) - 1 + y) * d + (d - g)) by (nonlinear_arith)
        requires
            -x == d * rounds + turn,
            host * x + d * y == g,
    ;
    assert(g <= d) by {
        if block < divisor {
            vstd::arithmetic::div_mod::lemma_small_mod(block, divisor);
        }
    }
    vstd::arithmetic::div_mod::lemma_fundamental_div_mod_converse(
        (turn * host) as int,
        d,
        -(rounds * host) - 1 + y,
        d - g,
    );
    law_silence_is_bounded(turn, block, capacity, host, divisor);
    law_silence_is_bounded(calls, block, capacity, host, divisor);
    law_silence_is_bounded(calls + 1, block, capacity, host, divisor);
    law_silence_only_grows(turn, calls, block, capacity, host);
    law_silence_only_grows(calls, calls + 1, block, capacity, host);
}

/// What a call does to the numbers, for a host that offers `offered` samples and wants `wanted`:
/// it takes as many as there is room for and counts the others as dropped; all whole blocks are
/// processed; the host gets as much as there is of what it wants, and silence for the rest; what
/// is left waits as far as there is room, and the others are counted as lost.
pub proof fn law_call_counts(
    flow: AdapterFlow,
    block: nat,
    capacity: nat,
    offered: nat,
    wanted: nat,
)
    requires
        block > 0,
        flow.input <= capacity,
    ensures
        ({
            let after = flow.after_call(block, capacity, offered, wanted);
            let taken = flow.accepted(capacity, offered);
            let blocks = flow.blocks(block, capacity, offered);
            let given = flow.delivered(block, capacity, offered, wanted);
            let ready = flow.output + blocks * block;
            &&& taken == offered || taken == capacity - flow.input
            &&& taken <= offered
            &&& taken <= capacity - flow.input
            &&& after.dropped == flow.dropped + offered - taken
            &&& after.input < block
            &&& after.input + blocks * block == flow.input + taken
            &&& given == wanted || given == ready
            &&& given <= wanted
            &&& given <= ready
            &&& after.filled == flow.filled + wanted - given
            &&& after.output == ready - given || after.output == capacity
            &&& after.output <= ready - given
            &&& after.output <= capacity
            &&& after.lost == flow.lost + ready - given - after.output
        }),
{
    let total = flow.input + flow.accepted(capacity, offered);
    vstd::arithmetic::div_mod::lemma_fundamental_div_mod(total as int, block as int);
    assert((total / block) * block == block * (total / block)) by (nonlinear_arith);
}

/// The counters fit if each of the three is within the limit, and only so. At the start all
/// numbers are zero.
pub proof fn law_counters_fit(flow: AdapterFlow, limit: nat)
    ensures
        flow.fits(limit) <==> flow.dropped <= limit && flow.lost <= limit && flow.filled <= limit,
        AdapterFlow::start().input == 0,
        AdapterFlow::start().output == 0,
        AdapterFlow::start().dropped == 0,
        AdapterFlow::start().lost == 0,
        AdapterFlow::start().filled == 0,
{
}

/// The latency is the greatest multiple of the host's block length that is below the length of
/// a processed block, and nothing for a host with no blocks or blocks that long.
pub proof fn law_latency_is_whole_silent_calls(block: nat, host: nat, other: nat)
    ensures
        host == 0 || host >= block ==> initial_latency(block, host) == 0,
        0 < host < block ==> initial_latency(block, host) < block && initial_latency(block, host)
            % host == 0,
        0 < host < block && other < block && other % host == 0 ==> other <= initial_latency(
            block,
            host,
        ),
{
    if 0 < host < block {
        lemma_initial_latency(block, host);
        let latency = initial_latency(block, host);
        let calls = (block - 1) / host as int;
        vstd::arithmetic::div_mod::lemma_mod_multiples_basic(calls, host as int);
        if latency < other && other < block && other % host == 0 {
            lemma_multiples_apart(latency, other, host);
        }
    }
}

/// The greatest common divisor goes into both numbers, and no number that does is greater.
pub proof fn law_gcd_is_greatest(a: nat, b: nat, divisor: nat)
    requires
        a > 0 || b > 0,
    ensures
        gcd(a, b) > 0,
        a % gcd(a, b) == 0,
        b % gcd(a, b) == 0,
        divisor > 0 && a % divisor == 0 && b % divisor == 0 ==> divisor <= gcd(a, b),
{
    let (x, y) = lemma_gcd(a, b);
    if divisor > 0 && a % divisor == 0 && b % divisor == 0 {
        let d = divisor as int;
        let g = gcd(a, b) as int;
        let m = a as int / d;
        let n = b as int / d;
        vstd::arithmetic::div_mod::lemma_fundamental_div_mod(a as int, d);
        vstd::arithmetic::div_mod::lemma_fundamental_div_mod(b as int, d);
        assert(g == d * (m * x + n * y)) by (nonlinear_arith)
            requires
                g == a * x + b * y,
                a == d * m,
                b == d * n,
        ;
        assert(d <= g) by (nonlinear_arith)
            requires
                g == d * (m * x + n * y),
                g > 0,
                d > 0,
        ;
    }
}

/// A number goes into both lengths if it leaves no remainder in either, and only so.
pub proof fn law_divides_both(divisor: nat, block: nat, host: nat)
    ensures
        divides_both(divisor, block, host) <==> divisor > 0 && block % divisor == 0 && host
            % divisor == 0,
{
}

} // verus!
