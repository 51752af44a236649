//! The grouping engine: a cursor over the groups of a digit run that says,
//! digit by digit from the most significant end, whether a separator
//! follows that digit.

use vstd::prelude::*;

verus! {

use crate::SeparatorPolicy;
use crate::model::{positive_groups, group_width, cum_width, is_sep_position, sep_flags};
use crate::model::{lemma_cum_width_mono, lemma_cum_width_beyond, lemma_not_sep_between};
use vstd::arithmetic::div_mod::{lemma_fundamental_div_mod, lemma_div_nonincreasing};

/// The flags a cursor state still yields: `cgs` digits close the current
/// (most significant, possibly partial) group, then come `rgr` further
/// repeats of the last group size, then the groups below `cgi`, down to the
/// rightmost group. Every digit yields `false` except the one that closes a
/// group with another group still to come, which yields `true`.
spec fn state_flags(groups: Seq<u8>, rgr: int, cgi: int, cgs: int) -> Seq<bool>
    decreases rgr, cgi, cgs,
{
    if cgs <= 0 {
        Seq::empty()
    } else if cgs > 1 {
        seq![false] + state_flags(groups, rgr, cgi, cgs - 1)
    } else if rgr >= 1 {
        seq![true] + state_flags(groups, rgr - 1, cgi, group_width(groups, cgi))
    } else if rgr == 0 && cgi >= 1 {
        seq![true] + state_flags(groups, 0, cgi - 1, group_width(groups, cgi - 1))
    } else {
        seq![false]
    }
}

/// Putting one flag in front of the flags of a shorter run gives the flags
/// of the run one digit longer, when the flag fits the boundary there.
proof fn lemma_flags_cons(groups: Seq<u8>, t: int, b: bool)
    requires
        t >= 1,
        b == is_sep_position(groups, t - 1),
    ensures
        seq![b] + sep_flags(groups, t - 1) == sep_flags(groups, t),
{
    let lhs = seq![b] + sep_flags(groups, t - 1);
    assert forall|i: int| 0 <= i < t implies lhs[i] == sep_flags(groups, t)[i] by {
        if i >= 1 {
            assert(lhs[i] == sep_flags(groups, t - 1)[i - 1]);
        }
    }
    assert(lhs =~= sep_flags(groups, t));
}

/// A cursor state that `cgs + cum_width(groups, rgr + cgi)` digits remain
/// for yields exactly the separator flags of a run of that many digits.
proof fn lemma_state_flags_model(groups: Seq<u8>, rgr: int, cgi: int, cgs: int)
    requires
        positive_groups(groups),
        groups.len() >= 1,
        0 <= rgr,
        0 <= cgi < groups.len(),
        rgr >= 1 ==> cgi == groups.len() - 1,
        0 <= cgs <= group_width(groups, rgr + cgi),
        cgs == 0 ==> rgr == 0 && cgi == 0,
    ensures
        state_flags(groups, rgr, cgi, cgs) == sep_flags(groups, cgs + cum_width(groups, rgr + cgi)),
    decreases rgr, cgi, cgs,
{
    let j = rgr + cgi;
    let t = cgs + cum_width(groups, j);
    lemma_cum_width_mono(groups, 0, j);
    if cgs == 0 {
        assert(state_flags(groups, rgr, cgi, cgs) =~= sep_flags(groups, t));
    } else if cgs > 1 {
        lemma_state_flags_model(groups, rgr, cgi, cgs - 1);
        lemma_not_sep_between(groups, j, t - 1);
        lemma_flags_cons(groups, t, false);
    } else if rgr >= 1 {
        // the current group closes and a repeat of the last size follows
        let w = group_width(groups, cgi);
        assert(group_width(groups, j - 1) == w);
        lemma_state_flags_model(groups, rgr - 1, cgi, w);
        assert(cum_width(groups, j) == cum_width(groups, j - 1) + group_width(groups, j - 1));
        assert(w + cum_width(groups, j - 1) == t - 1);
        lemma_cum_width_mono(groups, 1, j);
        assert(cum_width(groups, j) == t - 1);
        assert(is_sep_position(groups, t - 1));
        lemma_flags_cons(groups, t, true);
    } else if cgi >= 1 {
        // the current group closes and the next listed group follows
        let w = group_width(groups, cgi - 1);
        lemma_state_flags_model(groups, 0, cgi - 1, w);
        assert(cum_width(groups, j) == cum_width(groups, j - 1) + group_width(groups, j - 1));
        assert(w + cum_width(groups, cgi - 1) == t - 1);
        lemma_cum_width_mono(groups, 1, j);
        assert(cum_width(groups, j) == t - 1);
        assert(is_sep_position(groups, t - 1));
        lemma_flags_cons(groups, t, true);
    } else {
        // the rightmost group: its last digit has nothing to its right
        assert(t == 1);
        assert(state_flags(groups, rgr, cgi, cgs) =~= sep_flags(groups, 1));
    }
}

/// A cursor over the groups of a digit run. Built from a policy and a digit
/// count, it yields one flag per digit, most significant digit first: the
/// flag says whether a separator follows that digit.
#[derive(Debug)]
pub struct SeparatorIterator {
    groups: Vec<u8>,
    repeat_groups_remaining: usize,
    current_group_index: usize,
    current_group_size: usize,
}

impl SeparatorIterator {
    /// The cursor's state makes sense for its group list.
    pub closed spec fn wf(&self) -> bool {
        &&& self.groups@.len() >= 1
        &&& positive_groups(self.groups@)
        &&& (self.current_group_index as int) < self.groups@.len()
        &&& self.repeat_groups_remaining >= 1 ==> self.current_group_index as int
            == self.groups@.len() - 1
        &&& self.current_group_size as int <= group_width(
            self.groups@,
            self.repeat_groups_remaining as int + self.current_group_index as int,
        )
        &&& self.current_group_size == 0 ==> self.repeat_groups_remaining == 0
            && self.current_group_index == 0
    }

    /// The flags the cursor has still to yield.
    pub closed spec fn flags(&self) -> Seq<bool> {
        state_flags(
            self.groups@,
            self.repeat_groups_remaining as int,
            self.current_group_index as int,
            self.current_group_size as int,
        )
    }

    /// A cursor for a run of `ndigits` digits under `policy`, set to yield
    /// exactly the run's separator flags.
    pub fn new(policy: &SeparatorPolicy, ndigits: usize) -> (r: SeparatorIterator)
        requires
            policy.wf(),
        ensures
            r.wf(),
            r.flags() == sep_flags(policy.groups@, ndigits as int),
    {
        let groups = crate::text::copy_bytes(policy.groups.as_slice());
        let glen = groups.len();
        if ndigits == 0 {
            let r = SeparatorIterator {
                groups,
                repeat_groups_remaining: 0,
                current_group_index: 0,
                current_group_size: 0,
            };
            proof {
                lemma_state_flags_model(r.groups@, 0, 0, 0);
            }
            return r;
        }
        let mut sum: usize = 0;
        let mut index: usize = 0;
        while index < glen
            invariant
                groups@ == policy.groups@,
                positive_groups(groups@),
                glen == groups@.len(),
                glen >= 1,
                index <= glen,
                sum == cum_width(groups@, index as int),
                ndigits > sum,
            decreases glen - index,
        {
            let g = groups[index] as usize;
            if ndigits - sum <= g {
                let r = SeparatorIterator {
                    groups,
                    repeat_groups_remaining: 0,
                    current_group_index: index,
                    current_group_size: ndigits - sum,
                };
                proof {
                    lemma_state_flags_model(r.groups@, 0, index as int, ndigits - sum);
                }
                return r;
            }
            sum = sum + g;
            index = index + 1;
        }
        // the explicit groups are exhausted: the last size repeats
        let repeat = groups[glen - 1] as usize;
        let remaining = ndigits - sum;
        let (reps, size) = ceil_div_mod(remaining, repeat);
        let r = SeparatorIterator {
            groups,
            repeat_groups_remaining: reps,
            current_group_index: glen - 1,
            current_group_size: size,
        };
        proof {
            let gs = r.groups@;
            let last = group_width(gs, glen as int - 1);
            lemma_cum_width_beyond(gs, glen as int - 1, reps as int);
            assert(reps as int * last == (reps as int - 1) * last + last) by (nonlinear_arith);
            assert(size + cum_width(gs, reps as int + glen as int - 1) == ndigits);
            lemma_state_flags_model(gs, reps as int, glen as int - 1, size as int);
        }
        r
    }

    /// Yields the next flag, or nothing when every digit of the run has
    /// been seen.
    pub fn next(&mut self) -> (r: Option<bool>)
        requires
            old(self).wf(),
        ensures
            final(self).wf(),
            match r {
                Option::None => old(self).flags().len() == 0 && final(self).flags() == old(
                    self,
                ).flags(),
                Option::Some(b) => old(self).flags().len() > 0 && b == old(self).flags()[0]
                    && final(self).flags() == old(self).flags().drop_first(),
            },
    {
        if self.current_group_size == 0 {
            return None;
        }
        self.current_group_size = self.current_group_size - 1;
        if self.current_group_size > 0 {
            proof {
                assert(old(self).flags().drop_first() =~= self.flags());
            }
            return Some(false);
        }
        if self.repeat_groups_remaining >= 1 {
            self.repeat_groups_remaining = self.repeat_groups_remaining - 1;
            self.current_group_size = self.groups[self.current_group_index] as usize;
            proof {
                assert(old(self).flags().drop_first() =~= self.flags());
            }
            return Some(true);
        }
        if self.current_group_index >= 1 {
            self.current_group_index = self.current_group_index - 1;
            self.current_group_size = self.groups[self.current_group_index] as usize;
            proof {
                assert(old(self).flags().drop_first() =~= self.flags());
            }
            return Some(true);
        }
        proof {
            assert(old(self).flags().drop_first() =~= self.flags());
        }
        Some(false)
    }
}

/// Each character of `input` paired with its separator flag: the flag of
/// the character at index `i` says whether a separator belongs right after
/// it. The whole input is taken as one digit run, as its length drives the
/// grouping; classifying characters is the span locator's business.
pub fn separate_str_iter(policy: &SeparatorPolicy, input: &str) -> (r: Vec<(char, bool)>)
    requires
        policy.wf(),
    ensures
        r@.len() == input@.len(),
        forall|i: int|
            0 <= i < r@.len() ==> (#[trigger] r@[i]).0 == input@[i] && r@[i].1 == is_sep_position(
                policy.groups@,
                input@.len() - 1 - i,
            ),
{
    let cs = crate::text::str_chars(input);
    let n = cs.len();
    let mut it = SeparatorIterator::new(policy, n);
    let mut r: Vec<(char, bool)> = Vec::new();
    let mut i: usize = 0;
    proof {
        assert(it.flags() =~= sep_flags(policy.groups@, n as int).skip(0));
    }
    while i < n
        invariant
            policy.wf(),
            cs@ == input@,
            n == cs@.len(),
            i <= n,
            it.wf(),
            it.flags() == sep_flags(policy.groups@, n as int).skip(i as int),
            r@.len() == i,
            forall|k: int|
                0 <= k < i ==> (#[trigger] r@[k]).0 == input@[k] && r@[k].1 == is_sep_position(
                    policy.groups@,
                    n - 1 - k,
                ),
        decreases n - i,
    {
        let f = it.next().unwrap();
        proof {
            assert(sep_flags(policy.groups@, n as int).skip(i as int)[0] == sep_flags(
                policy.groups@,
                n as int,
            )[i as int]);
        }
        r.push((cs[i], f));
        i = i + 1;
        proof {
            assert(it.flags() =~= sep_flags(policy.groups@, n as int).skip(i as int));
        }
    }
    r
}

/// Ceiling division with a one-based remainder: splitting `n` items into
/// parcels of size `m` needs `r.0` parcels, and the first parcel holds
/// `r.1` items, between 1 and `m` — never an empty leading parcel.
pub fn ceil_div_mod(n: usize, m: usize) -> (r: (usize, usize))
    requires
        1 <= n,
        1 <= m,
    ensures
        1 <= r.0,
        1 <= r.1 <= m,
        (r.0 - 1) * m + r.1 == n,
{
    let q = (n - 1) / m;
    let rem = (n - 1) % m;
    proof {
        lemma_fundamental_div_mod(n as int - 1, m as int);
        lemma_div_nonincreasing(n as int - 1, m as int);
        assert((q + 1 - 1) * (m as int) == (m as int) * (q as int)) by (nonlinear_arith);
    }
    (q + 1, rem + 1)
}

} // verus!
