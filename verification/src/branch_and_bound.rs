//! Coin selection for building a transaction: an exact-match
//! branch-and-bound search over the optional inputs, with a randomized
//! greedy fallback (single random draw) when no exact match is found
//! within the try budget.

use vstd::prelude::*;

use rand::seq::SliceRandom;

use crate::model::{
    exists_exact, lemma_exists_exact_empty, lemma_exists_exact_nonneg,
    lemma_exists_exact_permutation, lemma_exists_exact_step, lemma_multiset_add_sub,
    lemma_multiset_subset_insert, lemma_sum_concat, lemma_sum_nonneg, lemma_sum_permutation,
    lemma_sum_push, lemma_sum_skip_index, lemma_sum_take_step, lemma_to_multiset_empty_subset,
    lemma_to_multiset_singleton, lemma_to_multiset_skip_step, lemma_to_multiset_take_subset,
    lemma_two_to_the_pos, sorted_descending, sum_values, two_to_the,
};

verus! {

/// Declares bitcoin's `OutPoint` (the reference to the transaction output
/// being spent) so that it can stand in fields here. It is opaque to the
/// selection logic, which carries it through untouched and decides by the
/// value alone.
#[verifier::external_type_specification]
#[verifier::external_body]
pub struct ExOutPoint(bitcoin::blockdata::transaction::OutPoint);

/// A spendable transaction output: the outpoint referencing it, and its
/// value in the smallest currency unit. The selection logic reads only the
/// value; the outpoint is carried through untouched.
#[derive(Debug, Clone, Copy, PartialEq)]
pub struct OutPointValue(pub bitcoin::blockdata::transaction::OutPoint, pub u64);

/// The single failure mode of coin selection: the available inputs cannot
/// cover the spending target plus the estimated fee.
#[derive(Debug)]
pub enum Error {
    InsufficientFunds,
}

pub struct BranchAndBound {
    /// The spending target to be reached. Note that this variable should hold only the sum of the
    /// outputs, and not the fees: those will be calculated using `addressees_num`,
    /// `estimated_fee_rate`, `size_of_header`, `size_per_output`, `size_per_input`.
    pub spending_target: u64,
    /// Utxos in this vector will be always included in the result.
    /// Useful for RBF.
    pub mandatory_utxos: Vec<OutPointValue>,
    /// Utxos that could be included in the result, if mandatory_utxos
    /// are not enough.
    pub optional_utxos: Vec<OutPointValue>,
    /// How many outputs the transaction has. Used for estimating fees.
    pub addressees_num: u64,
    /// Estimated fee rate, in sat/vbyte.
    pub estimated_fee_rate: u64,
    /// Size of the transaction header. Used for estimating fees.
    pub size_of_header: u64,
    /// Size of each transaction output. Used for estimating fees.
    pub size_per_output: u64,
    /// Size of each transaction input. Used for estimating fees.
    pub size_per_input: u64,
    /// How many times should the algorithm try to find an exact match, before answering with a
    /// suboptimal result.
    pub tries: u64,
}

impl BranchAndBound {
    /// Fee charged for each input included in the transaction.
    pub open spec fn spec_input_rate(self) -> int {
        self.size_per_input * self.estimated_fee_rate
    }

    /// Fee charged for `n` inputs.
    pub open spec fn spec_input_cost(self, n: int) -> int {
        self.spec_input_rate() * n
    }

    /// Fee charged for the transaction's outputs.
    pub open spec fn spec_output_cost(self) -> int {
        self.addressees_num * self.size_per_output * self.estimated_fee_rate
    }

    /// Fee charged for the transaction's header.
    pub open spec fn spec_header_cost(self) -> int {
        self.size_of_header * self.estimated_fee_rate
    }

    /// Target plus the input-independent fees.
    pub open spec fn spec_base_target(self) -> int {
        self.spending_target + self.spec_header_cost() + self.spec_output_cost()
    }

    /// What a selection of `n` inputs must reach: target plus all fees.
    pub open spec fn spec_match_target(self, n: int) -> int {
        self.spec_base_target() + self.spec_input_cost(n)
    }

    /// Acceptable overshoot above the match target for `n` selected inputs.
    pub open spec fn spec_match_range(self, n: int) -> int {
        self.spec_input_cost(n) + self.spec_output_cost()
    }

    /// Number of candidate inputs, mandatory and optional together.
    pub open spec fn spec_n_inputs(self) -> int {
        self.mandatory_utxos@.len() + self.optional_utxos@.len() as int
    }

    /// Total value available over all candidate inputs.
    pub open spec fn spec_total_value(self) -> int {
        sum_values(self.mandatory_utxos@) + sum_values(self.optional_utxos@)
    }

    /// A cost model under which fees vanish: selections are judged against
    /// the spending target alone.
    pub open spec fn zero_cost_model(self) -> bool {
        self.spec_header_cost() == 0 && self.spec_output_cost() == 0
            && self.spec_input_rate() == 0
    }

    /// Everything but the remaining try budget agrees between two requests:
    /// the search mutates only `tries`.
    pub open spec fn same_but_tries(self, other: BranchAndBound) -> bool {
        &&& self.spending_target == other.spending_target
        &&& self.mandatory_utxos@ == other.mandatory_utxos@
        &&& self.optional_utxos@ == other.optional_utxos@
        &&& self.addressees_num == other.addressees_num
        &&& self.estimated_fee_rate == other.estimated_fee_rate
        &&& self.size_of_header == other.size_of_header
        &&& self.size_per_output == other.size_per_output
        &&& self.size_per_input == other.size_per_input
    }

    /// The request is small enough that every fee computation and every
    /// running sum fits in a u64.
    pub open spec fn params_ok(self) -> bool {
        &&& self.addressees_num * self.size_per_output <= u64::MAX
        &&& self.spec_base_target() + self.spec_output_cost() + 2 * self.spec_input_cost(
            self.spec_n_inputs() + 1,
        ) <= u64::MAX
        &&& self.spec_total_value() <= u64::MAX
    }

    /// Selects coins such that their sum is equal to or greater than the spending target plus
    /// the estimated fees, returns an Error if the utxos are insufficient for reaching it.
    /// It will return an exact match, if found before `self.tries` tries, otherwise a
    /// suboptimal result will be given.
    /// The suboptimal solution is obtained including all `self.mandatory_utxos`, and then
    /// picking randomly from `self.optional_utxos`, until the spending
    /// target is reached.
    pub fn select_coins(self) -> (r: Result<Vec<OutPointValue>, Error>)
        requires
            self.params_ok(),
        ensures
            // every mandatory input appears in a successful selection
            r matches Ok(v) ==> forall|i: int|
                0 <= i < self.mandatory_utxos@.len() ==> v@.contains(self.mandatory_utxos@[i]),
            // a successful selection covers the target plus the header and
            // output fees, plus the input fee for each optional input taken
            r matches Ok(v) ==> {
                &&& v@.len() >= self.mandatory_utxos@.len()
                &&& sum_values(v@) >= self.spec_base_target() + self.spec_input_cost(
                    v@.len() - self.mandatory_utxos@.len(),
                )
                &&& sum_values(v@) <= self.spec_total_value()
            },
            // a successful selection is the mandatory inputs plus a
            // sub-collection of the optional ones: nothing else gets in
            r matches Ok(v) ==> {
                &&& self.mandatory_utxos@.to_multiset().subset_of(v@.to_multiset())
                &&& v@.to_multiset().sub(self.mandatory_utxos@.to_multiset()).subset_of(
                    self.optional_utxos@.to_multiset(),
                )
            },
            // with no mandatory inputs (or a costless input model) it covers
            // the full fee of every selected input
            r matches Ok(v) ==> ((self.mandatory_utxos@.len() == 0 || self.spec_input_rate()
                == 0) ==> sum_values(v@) >= self.spec_match_target(v@.len() as int)),
            // when even the target alone is out of reach, the call fails
            self.spec_total_value() < self.spending_target ==> r is Err,
            // a failure means the whole candidate set cannot cover the
            // target plus the fee at the final selection size
            r is Err ==> self.spec_total_value() < self.spec_match_target(
                self.optional_utxos@.len() as int,
            ),
            r matches Err(e) ==> e is InsufficientFunds,
            // with enough budget for the whole search tree and a costless
            // model, an exact subset is found whenever one exists
            (self.zero_cost_model() && self.tries >= two_to_the(self.optional_utxos@.len())
                && exists_exact(
                self.optional_utxos@,
                self.spending_target - sum_values(self.mandatory_utxos@),
            )) ==> (r matches Ok(v) && sum_values(v@) == self.spending_target),
    {
        let ghost req = self;
        let mut this = self;
        this.optional_utxos = sort_utxos_descending(this.optional_utxos);
        let ghost sorted = this.optional_utxos@;
        proof {
            lemma_sum_permutation(sorted, req.optional_utxos@);
            lemma_sum_nonneg(sorted);
            lemma_sum_nonneg(req.mandatory_utxos@);
            assert(this.params_ok());
            assert(sorted.skip(0) =~= sorted);
            lemma_cost_bounds(req, 0);
        }
        let mut selected_utxos = clone_utxos(&this.mandatory_utxos);
        let sum_mandatory = total_value(&this.mandatory_utxos);
        let result = this.branch_and_bound(0, &mut selected_utxos, sum_mandatory);

        proof {
            if req.zero_cost_model() && req.tries >= two_to_the(req.optional_utxos@.len())
                && exists_exact(
                req.optional_utxos@,
                req.spending_target - sum_values(req.mandatory_utxos@),
            ) {
                lemma_exists_exact_permutation(
                    req.optional_utxos@,
                    sorted,
                    req.spending_target - sum_values(req.mandatory_utxos@),
                );
                assert(result);
            }
        }

        if result {
            proof {
                let v = selected_utxos@;
                let mlen = req.mandatory_utxos@.len() as int;
                assert(req.mandatory_utxos@ =~= v.subrange(0, mlen));
                assert forall|i: int| 0 <= i < mlen implies v.contains(
                    #[trigger] req.mandatory_utxos@[i],
                ) by {
                    assert(v[i] == req.mandatory_utxos@[i]);
                }
                let app = v.skip(mlen);
                assert(v =~= req.mandatory_utxos@ + app);
                vstd::seq_lib::lemma_multiset_commutative(req.mandatory_utxos@, app);
                lemma_multiset_add_sub(app.to_multiset(), req.mandatory_utxos@.to_multiset());
                lemma_cost_bounds(req, v.len() as int);
                vstd::arithmetic::mul::lemma_mul_inequality(
                    v.len() - mlen,
                    v.len() as int,
                    req.spec_input_rate(),
                );
                vstd::arithmetic::mul::lemma_mul_nonnegative(
                    req.spec_input_rate(),
                    v.len() - mlen,
                );
                if req.zero_cost_model() {
                    vstd::arithmetic::mul::lemma_mul_basics(v.len() as int);
                    assert(req.spec_input_cost(v.len() as int) == 0);
                    assert(req.spec_match_range(v.len() as int) == 0);
                }
            }
            Ok(selected_utxos)
        } else {
            this.single_random_draw(sum_mandatory)
        }
    }

    /// Fallback when the exact search fails ("single random draw"): shuffle
    /// the optional inputs, take them in that order while the running sum is
    /// still short of the running fee-adjusted target, then add every
    /// mandatory input unconditionally.
    fn single_random_draw(self, sum_mandatory: u64) -> (r: Result<Vec<OutPointValue>, Error>)
        requires
            self.params_ok(),
            sum_mandatory == sum_values(self.mandatory_utxos@),
        ensures
            r matches Ok(v) ==> {
                &&& v@.len() >= self.mandatory_utxos@.len()
                &&& v@.skip(v@.len() - self.mandatory_utxos@.len()) == self.mandatory_utxos@
                &&& forall|i: int|
                    0 <= i < self.mandatory_utxos@.len() ==> v@.contains(
                        self.mandatory_utxos@[i],
                    )
                &&& sum_values(v@) >= self.spec_base_target() + self.spec_input_cost(
                    v@.len() - self.mandatory_utxos@.len(),
                )
                &&& sum_values(v@) <= self.spec_total_value()
                &&& ((self.mandatory_utxos@.len() == 0 || self.spec_input_rate() == 0)
                    ==> sum_values(v@) >= self.spec_match_target(v@.len() as int))
                &&& self.mandatory_utxos@.to_multiset().subset_of(v@.to_multiset())
                &&& v@.to_multiset().sub(self.mandatory_utxos@.to_multiset()).subset_of(
                    self.optional_utxos@.to_multiset(),
                )
            },
            r is Err ==> self.spec_total_value() < self.spec_match_target(
                self.optional_utxos@.len() as int,
            ),
            r matches Err(e) ==> e is InsufficientFunds,
    {
        let ghost req = self;
        proof {
            lemma_cost_bounds(req, 1);
        }
        let output_cost = self.output_cost();
        let header_cost = self.header_cost();
        let cost_per_input = self.input_cost(1);
        let mut target = self.spending_target + output_cost + header_cost;

        let mut optional_utxos = self.optional_utxos;
        shuffle_utxos(&mut optional_utxos);
        let ghost shuffled = optional_utxos@;
        proof {
            lemma_sum_permutation(shuffled, req.optional_utxos@);
            vstd::seq_lib::to_multiset_len(shuffled);
            vstd::seq_lib::to_multiset_len(req.optional_utxos@);
            lemma_sum_nonneg(req.optional_utxos@);
            lemma_sum_nonneg(req.mandatory_utxos@);
            assert(shuffled.take(0) =~= Seq::<OutPointValue>::empty());
            vstd::arithmetic::mul::lemma_mul_basics(req.spec_input_rate());
        }

        let mut sum = sum_mandatory;
        let mut selected_utxos: Vec<OutPointValue> = Vec::new();
        let mut k: usize = 0;
        let mut stopped = false;
        while k < optional_utxos.len() && !stopped
            invariant
                req.params_ok(),
                sum_mandatory == sum_values(req.mandatory_utxos@),
                optional_utxos@ == shuffled,
                shuffled.to_multiset() == req.optional_utxos@.to_multiset(),
                sum_values(shuffled) == sum_values(req.optional_utxos@),
                shuffled.len() == req.optional_utxos@.len(),
                k <= shuffled.len(),
                selected_utxos@ == shuffled.take(k as int),
                cost_per_input == req.spec_input_rate(),
                !stopped ==> sum == sum_mandatory + sum_values(shuffled.take(k as int)),
                !stopped ==> target == req.spec_base_target() + req.spec_input_cost(k as int),
                stopped ==> k < shuffled.len(),
                stopped ==> sum == sum_mandatory + sum_values(shuffled.take(k as int))
                    + shuffled[k as int].1,
                stopped ==> target == req.spec_base_target() + req.spec_input_cost(
                    k as int + 1,
                ),
                stopped ==> sum_mandatory + sum_values(shuffled.take(k as int)) >= target,
            decreases shuffled.len() - k, (if stopped { 0int } else { 1int }),
        {
            let x = optional_utxos[k];
            proof {
                lemma_cost_bounds(req, k as int + 1);
                lemma_sum_take_step(shuffled, k as int);
                assert(shuffled =~= shuffled.take(k as int + 1) + shuffled.skip(k as int + 1));
                lemma_sum_concat(shuffled.take(k as int + 1), shuffled.skip(k as int + 1));
                lemma_sum_nonneg(shuffled.skip(k as int + 1));
                lemma_sum_nonneg(shuffled.take(k as int));
                vstd::arithmetic::mul::lemma_mul_is_distributive_add(
                    req.spec_input_rate(),
                    k as int,
                    1,
                );
                vstd::arithmetic::mul::lemma_mul_basics(req.spec_input_rate());
            }
            sum = sum + x.1;
            target = target + cost_per_input;
            if sum - x.1 < target {
                proof {
                    assert(shuffled.take(k as int).push(shuffled[k as int]) =~= shuffled.take(
                        k as int + 1,
                    ));
                }
                selected_utxos.push(x);
                k = k + 1;
            } else {
                stopped = true;
            }
        }

        let ghost taken = selected_utxos@;
        let mut mandatory_utxos = self.mandatory_utxos;
        selected_utxos.append(&mut mandatory_utxos);
        proof {
            vstd::seq_lib::lemma_multiset_commutative(taken, req.mandatory_utxos@);
            lemma_multiset_add_sub(taken.to_multiset(), req.mandatory_utxos@.to_multiset());
            lemma_to_multiset_take_subset(shuffled, k as int);
            lemma_sum_concat(taken, req.mandatory_utxos@);
            assert(selected_utxos@.skip(taken.len() as int) =~= req.mandatory_utxos@);
            lemma_sum_nonneg(taken);
            assert(taken == shuffled.take(k as int));
            assert(shuffled =~= shuffled.take(k as int) + shuffled.skip(k as int));
            lemma_sum_concat(shuffled.take(k as int), shuffled.skip(k as int));
            lemma_sum_nonneg(shuffled.skip(k as int));
            vstd::arithmetic::mul::lemma_mul_basics(req.spec_input_rate());
            vstd::arithmetic::mul::lemma_mul_inequality(
                k as int,
                k as int + 1,
                req.spec_input_rate(),
            );
            if req.spec_input_rate() == 0 {
                vstd::arithmetic::mul::lemma_mul_basics(selected_utxos@.len() as int);
                assert(req.spec_input_cost(selected_utxos@.len() as int) == 0);
            }
            assert(forall|i: int|
                0 <= i < req.mandatory_utxos@.len() ==> selected_utxos@.contains(
                    #[trigger] req.mandatory_utxos@[i],
                )) by {
                assert forall|i: int| 0 <= i < req.mandatory_utxos@.len() implies
                    selected_utxos@.contains(#[trigger] req.mandatory_utxos@[i]) by {
                    assert(selected_utxos@[taken.len() + i] == req.mandatory_utxos@[i]);
                }
            }
        }

        if sum >= target {
            proof {
                let v = selected_utxos@;
                assert(v.len() - req.mandatory_utxos@.len() == k as int);
                if stopped {
                    assert(sum_values(v) == sum_mandatory + sum_values(taken));
                    assert(sum_mandatory + sum_values(taken) >= req.spec_base_target()
                        + req.spec_input_cost(k as int + 1));
                    assert(sum_values(v) >= req.spec_base_target() + req.spec_input_cost(
                        k as int,
                    ));
                } else {
                    assert(k == shuffled.len());
                    assert(shuffled.take(k as int) =~= shuffled);
                    assert(sum_values(taken) == sum_values(shuffled));
                    assert(sum == sum_mandatory + sum_values(shuffled));
                    assert(sum_values(v) >= req.spec_base_target() + req.spec_input_cost(
                        k as int,
                    ));
                }
            }
            Ok(selected_utxos)
        } else {
            proof {
                assert(!stopped);
                assert(k == shuffled.len());
                assert(shuffled.take(k as int) =~= shuffled);
            }
            Err(Error::InsufficientFunds)
        }
    }

    pub fn input_cost(&self, input_num: u64) -> (c: u64)
        requires
            self.spec_input_rate() <= u64::MAX,
            self.spec_input_cost(input_num as int) <= u64::MAX,
        ensures
            c == self.spec_input_cost(input_num as int),
    {
        proof {
            vstd::arithmetic::mul::lemma_mul_nonnegative(
                self.size_per_input as int,
                self.estimated_fee_rate as int,
            );
            vstd::arithmetic::mul::lemma_mul_nonnegative(
                self.spec_input_rate(),
                input_num as int,
            );
        }
        self.size_per_input * self.estimated_fee_rate * input_num
    }

    pub fn output_cost(&self) -> (c: u64)
        requires
            self.addressees_num * self.size_per_output <= u64::MAX,
            self.spec_output_cost() <= u64::MAX,
        ensures
            c == self.spec_output_cost(),
    {
        proof {
            vstd::arithmetic::mul::lemma_mul_nonnegative(
                self.addressees_num as int,
                self.size_per_output as int,
            );
            vstd::arithmetic::mul::lemma_mul_nonnegative(
                self.addressees_num * self.size_per_output,
                self.estimated_fee_rate as int,
            );
        }
        self.addressees_num * self.size_per_output * self.estimated_fee_rate
    }

    pub fn header_cost(&self) -> (c: u64)
        requires
            self.spec_header_cost() <= u64::MAX,
        ensures
            c == self.spec_header_cost(),
    {
        proof {
            vstd::arithmetic::mul::lemma_mul_nonnegative(
                self.size_of_header as int,
                self.estimated_fee_rate as int,
            );
        }
        self.size_of_header * self.estimated_fee_rate
    }

    /// Depth-first include-first exploration of the optional inputs from
    /// `depth` on, growing `current_selection` (whose sum is
    /// `effective_value`). Returns true exactly when it stops on a
    /// selection inside the fee-tolerant match window; the budget `tries`
    /// caps how many nodes may be expanded, and a budget of 2^(remaining
    /// inputs) is always enough to find an exact match under the zero-cost
    /// model when one exists.
    fn branch_and_bound(
        &mut self,
        depth: usize,
        current_selection: &mut Vec<OutPointValue>,
        effective_value: u64,
    ) -> (found: bool)
        requires
            old(self).params_ok(),
            depth <= old(self).optional_utxos@.len(),
            old(current_selection)@.len() <= old(self).mandatory_utxos@.len() + depth,
            effective_value == sum_values(old(current_selection)@),
            effective_value + sum_values(old(self).optional_utxos@.skip(depth as int))
                <= u64::MAX,
        ensures
            old(self).same_but_tries(*final(self)),
            final(self).tries <= old(self).tries,
            old(self).tries - final(self).tries <= two_to_the(
                (old(self).optional_utxos@.len() - depth) as nat,
            ) - 1,
            !found ==> final(current_selection)@ == old(current_selection)@,
            found ==> old(current_selection)@.is_prefix_of(final(current_selection)@),
            found ==> final(current_selection)@.len() <= old(current_selection)@.len() + (
            old(self).optional_utxos@.len() - depth),
            found ==> sum_values(final(current_selection)@) >= old(self).spec_match_target(
                final(current_selection)@.len() as int,
            ),
            found ==> sum_values(final(current_selection)@) <= old(self).spec_match_target(
                final(current_selection)@.len() as int,
            ) + old(self).spec_match_range(final(current_selection)@.len() as int),
            found ==> sum_values(final(current_selection)@) <= effective_value + sum_values(
                old(self).optional_utxos@.skip(depth as int),
            ),
            found ==> final(current_selection)@.skip(
                old(current_selection)@.len() as int,
            ).to_multiset().subset_of(
                old(self).optional_utxos@.skip(depth as int).to_multiset(),
            ),
            (old(self).zero_cost_model() && old(self).tries >= two_to_the(
                (old(self).optional_utxos@.len() - depth) as nat,
            ) && exists_exact(
                old(self).optional_utxos@.skip(depth as int),
                old(self).spending_target - effective_value,
            )) ==> found,
        decreases old(self).optional_utxos@.len() - depth,
    {
        let ghost pre = *self;
        let ghost n_sel = current_selection@.len() as int;
        let ghost k = (pre.optional_utxos@.len() - depth) as nat;
        let ghost remaining = pre.optional_utxos@.skip(depth as int);
        let ghost need = pre.spending_target - effective_value;

        proof {
            lemma_cost_bounds(pre, n_sel);
            lemma_two_to_the_pos(k);
            lemma_sum_nonneg(remaining);
            if pre.zero_cost_model() {
                vstd::arithmetic::mul::lemma_mul_basics(n_sel);
                assert(pre.spec_input_cost(n_sel) == 0);
            }
        }

        let num_inputs = current_selection.len() as u64;
        let input_cost = self.input_cost(num_inputs);
        let output_cost = self.output_cost();
        let header_cost = self.header_cost();
        let target_for_match = self.spending_target + header_cost + output_cost + input_cost;
        let match_range = input_cost + output_cost;

        if effective_value > target_for_match + match_range {
            proof {
                if pre.zero_cost_model() && exists_exact(remaining, need) {
                    lemma_exists_exact_nonneg(remaining, need);
                    assert(false);
                }
            }
            return false;
        }

        if effective_value >= target_for_match {
            proof {
                assert(current_selection@.subrange(0, current_selection@.len() as int)
                    =~= current_selection@);
                lemma_to_multiset_empty_subset(
                    current_selection@.skip(current_selection@.len() as int),
                    pre.optional_utxos@.skip(depth as int).to_multiset(),
                );
            }
            return true;
        }

        if self.tries == 0 || depth >= self.optional_utxos.len() {
            proof {
                if pre.zero_cost_model() && pre.tries >= two_to_the(k) && exists_exact(
                    remaining,
                    need,
                ) {
                    assert(pre.tries > 0);
                    assert(depth >= pre.optional_utxos@.len());
                    assert(remaining.len() == 0);
                    lemma_exists_exact_empty(remaining, need);
                    assert(false);
                }
            }
            return false;
        }

        self.tries = self.tries - 1;

        proof {
            assert(two_to_the(k) == 2 * two_to_the((k - 1) as nat));
            lemma_two_to_the_pos((k - 1) as nat);
            lemma_sum_skip_index(pre.optional_utxos@, depth as int);
            lemma_sum_nonneg(pre.optional_utxos@.skip(depth as int + 1));
        }

        // Exploring inclusion and omission branch
        let current_utxo = self.optional_utxos[depth];
        let current_utxo_value = current_utxo.1;
        let ghost sel0 = current_selection@;
        current_selection.push(current_utxo);
        proof {
            lemma_sum_push(sel0, current_utxo);
        }

        let included = self.branch_and_bound(
            depth + 1,
            current_selection,
            effective_value + current_utxo_value,
        );
        if included {
            proof {
                broadcast use vstd::multiset::group_multiset_axioms;

                assert(sel0.is_prefix_of(current_selection@)) by {
                    assert(sel0.push(current_utxo).is_prefix_of(current_selection@));
                    assert(sel0 =~= current_selection@.subrange(0, sel0.len() as int));
                }
                let app = current_selection@.skip(sel0.len() as int);
                let app1 = current_selection@.skip(sel0.len() as int + 1);
                assert(sel0.push(current_utxo) =~= current_selection@.subrange(
                    0,
                    sel0.len() as int + 1,
                ));
                assert(sel0.push(current_utxo)[sel0.len() as int] == current_utxo);
                assert(current_selection@.subrange(0, sel0.len() as int + 1)[sel0.len() as int]
                    == current_selection@[sel0.len() as int]);
                assert(current_selection@[sel0.len() as int] == current_utxo);
                assert(app =~= seq![current_utxo] + app1);
                vstd::seq_lib::lemma_multiset_commutative(seq![current_utxo], app1);
                lemma_to_multiset_singleton(current_utxo);
                assert(app.to_multiset() =~= app1.to_multiset().insert(current_utxo));
                lemma_to_multiset_skip_step(pre.optional_utxos@, depth as int);
                lemma_multiset_subset_insert(
                    app1.to_multiset(),
                    pre.optional_utxos@.skip(depth as int + 1).to_multiset(),
                    current_utxo,
                );
            }
            return true;
        }

        let ghost sel1 = current_selection@;
        current_selection.pop();
        proof {
            assert(sel1 == sel0.push(current_utxo));
            assert(current_selection@ =~= sel0);
        }

        let ghost mid = *self;
        let excluded = self.branch_and_bound(depth + 1, current_selection, effective_value);

        proof {
            if excluded {
                lemma_to_multiset_skip_step(pre.optional_utxos@, depth as int);
                lemma_multiset_subset_insert(
                    current_selection@.skip(sel0.len() as int).to_multiset(),
                    pre.optional_utxos@.skip(depth as int + 1).to_multiset(),
                    pre.optional_utxos@[depth as int],
                );
            }
            if pre.zero_cost_model() && pre.tries >= two_to_the(k) && exists_exact(
                remaining,
                need,
            ) {
                lemma_exists_exact_step(remaining, need);
                assert(remaining.skip(1) =~= pre.optional_utxos@.skip(depth as int + 1));
                assert(remaining[0] == pre.optional_utxos@[depth as int]);
                if exists_exact(remaining.skip(1), need - remaining[0].1) {
                    // the inclusion branch had budget 2^(k-1) and a witness,
                    // so it cannot have failed
                    assert(included);
                    assert(false);
                } else {
                    assert(exists_exact(remaining.skip(1), need));
                    assert(mid.tries >= two_to_the((k - 1) as nat));
                    assert(excluded);
                }
            }
        }
        excluded
    }
}

/// Every fee the cost model can charge for a request with `params_ok` fits
/// in a u64, as does the match window for any admissible selection size.
proof fn lemma_cost_bounds(b: BranchAndBound, n: int)
    requires
        b.params_ok(),
        0 <= n <= b.spec_n_inputs() + 1,
    ensures
        0 <= b.spec_input_rate() <= u64::MAX,
        0 <= b.spec_input_cost(n) <= u64::MAX,
        0 <= b.spec_output_cost() <= u64::MAX,
        0 <= b.spec_header_cost(),
        b.spending_target <= b.spec_base_target(),
        b.spec_base_target() <= u64::MAX,
        b.spec_match_target(n) + b.spec_match_range(n) <= u64::MAX,
{
    let rate = b.spec_input_rate();
    let top = b.spec_n_inputs() + 1;
    vstd::arithmetic::mul::lemma_mul_nonnegative(
        b.size_per_input as int,
        b.estimated_fee_rate as int,
    );
    vstd::arithmetic::mul::lemma_mul_nonnegative(b.addressees_num as int, b.size_per_output as int);
    vstd::arithmetic::mul::lemma_mul_nonnegative(
        b.addressees_num * b.size_per_output,
        b.estimated_fee_rate as int,
    );
    vstd::arithmetic::mul::lemma_mul_nonnegative(
        b.size_of_header as int,
        b.estimated_fee_rate as int,
    );
    vstd::arithmetic::mul::lemma_mul_nonnegative(rate, n);
    vstd::arithmetic::mul::lemma_mul_nonnegative(rate, top);
    vstd::arithmetic::mul::lemma_mul_inequality(n, top, rate);
    vstd::arithmetic::mul::lemma_mul_inequality(1, top, rate);
    vstd::arithmetic::mul::lemma_mul_basics(rate);
}

/// Relies on rand's `SliceRandom::shuffle`: a Fisher-Yates walk that only
/// swaps elements of the slice in place, so the result holds exactly the
/// inputs it was given, in some order drawn from a process-wide source.
#[verifier::external_body]
fn shuffle_utxos(utxos: &mut Vec<OutPointValue>)
    ensures
        final(utxos)@.to_multiset() == old(utxos)@.to_multiset(),
{
    utxos.shuffle(&mut rand::thread_rng());
}

fn clone_utxos(utxos: &Vec<OutPointValue>) -> (r: Vec<OutPointValue>)
    ensures
        r@ == utxos@,
{
    let mut r: Vec<OutPointValue> = Vec::new();
    let mut i: usize = 0;
    while i < utxos.len()
        invariant
            i <= utxos@.len(),
            r@ == utxos@.take(i as int),
        decreases utxos@.len() - i,
    {
        proof {
            assert(utxos@.take(i as int).push(utxos@[i as int]) =~= utxos@.take(i + 1));
        }
        r.push(utxos[i]);
        i = i + 1;
    }
    proof {
        assert(utxos@.take(utxos@.len() as int) =~= utxos@);
    }
    r
}

fn total_value(utxos: &Vec<OutPointValue>) -> (s: u64)
    requires
        sum_values(utxos@) <= u64::MAX,
    ensures
        s == sum_values(utxos@),
{
    let mut s: u64 = 0;
    let mut i: usize = 0;
    proof {
        assert(utxos@.take(0) =~= Seq::<OutPointValue>::empty());
    }
    while i < utxos.len()
        invariant
            i <= utxos@.len(),
            s == sum_values(utxos@.take(i as int)),
            sum_values(utxos@) <= u64::MAX,
        decreases utxos@.len() - i,
    {
        proof {
            lemma_sum_take_step(utxos@, i as int);
            assert(utxos@ =~= utxos@.take(i + 1) + utxos@.skip(i + 1));
            lemma_sum_concat(utxos@.take(i + 1), utxos@.skip(i + 1));
            lemma_sum_nonneg(utxos@.skip(i + 1));
        }
        s = s + utxos[i].1;
        i = i + 1;
    }
    proof {
        assert(utxos@.take(utxos@.len() as int) =~= utxos@);
    }
    s
}

/// Selection sort by value, largest first: best-first ordering improves
/// pruning during the exact-match search.
fn sort_utxos_descending(utxos: Vec<OutPointValue>) -> (r: Vec<OutPointValue>)
    ensures
        r@.to_multiset() == utxos@.to_multiset(),
        r@.len() == utxos@.len(),
        sorted_descending(r@),
{
    broadcast use vstd::seq_lib::group_to_multiset_ensures;
    broadcast use vstd::multiset::group_multiset_axioms;

    let mut src = utxos;
    let mut r: Vec<OutPointValue> = Vec::new();
    proof {
        assert(r@.to_multiset().add(src@.to_multiset()) =~= utxos@.to_multiset());
    }
    while src.len() > 0
        invariant
            r@.len() + src@.len() == utxos@.len(),
            r@.to_multiset().add(src@.to_multiset()) == utxos@.to_multiset(),
            sorted_descending(r@),
            forall|i: int, j: int|
                0 <= i < r@.len() && 0 <= j < src@.len() ==> r@[i].1 >= src@[j].1,
        decreases src@.len(),
    {
        let mut best: usize = 0;
        let mut k: usize = 1;
        while k < src.len()
            invariant
                0 < src@.len(),
                best < k,
                1 <= k <= src@.len(),
                forall|j: int| 0 <= j < k ==> src@[best as int].1 >= src@[j].1,
            decreases src@.len() - k,
        {
            if src[k].1 > src[best].1 {
                best = k;
            }
            k = k + 1;
        }
        let ghost old_r = r@;
        let ghost old_src = src@;
        let x = src.remove(best);
        r.push(x);
        proof {
            assert(src@ == old_src.remove(best as int));
            assert(r@ == old_r.push(x));
            vstd::seq_lib::to_multiset_remove(old_src, best as int);
            vstd::seq_lib::to_multiset_build(old_r, x);
            assert(src@.to_multiset() == old_src.to_multiset().remove(x));
            assert(r@.to_multiset() =~= old_r.to_multiset().insert(x));
            assert(old_src.to_multiset().count(x) > 0) by {
                assert(old_src[best as int] == x);
                assert(old_src.contains(x));
                vstd::seq_lib::to_multiset_contains(old_src, x);
            }
            assert(r@.to_multiset().add(src@.to_multiset()) =~= utxos@.to_multiset());
        }
    }
    r
}

} // verus!
