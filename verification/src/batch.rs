//! The meaning of a batched stash access: which values it reads, how it updates the blocks
//! it finds, and where it inserts the blocks it does not find.

use crate::block::{is_dummy_block, PathOramBlock, DUMMY_ADDRESS};
use crate::stash::{lemma_last_match_at, lemma_last_match_bounds};
use crate::stash::{dummies, last_match, lookup};
use crate::tree::TreeIndex;
use crate::{Address, OramBlock};
use vstd::prelude::*;

verus! {

/// The values that a batch reads from stash `s`: for each address, the value stored for it.
pub open spec fn batch_lookup<V: OramBlock>(s: Seq<PathOramBlock<V>>, addresses: Seq<Address>) -> Seq<V> {
    Seq::new(addresses.len(), |r: int| lookup(s, addresses[r]))
}

/// Block `b` after the requests of a batch: the last request for its address, if any, gives
/// it that request's value and position.
pub open spec fn updated_block<V>(
    b: PathOramBlock<V>,
    addresses: Seq<Address>,
    positions: Seq<TreeIndex>,
    values: Seq<V>,
) -> PathOramBlock<V>
    decreases addresses.len(),
{
    if addresses.len() == 0 {
        b
    } else if addresses.last() == b.address {
        PathOramBlock {
            value: values[addresses.len() - 1],
            address: b.address,
            position: positions[addresses.len() - 1],
        }
    } else {
        updated_block(
            b,
            addresses.drop_last(),
            positions.take(addresses.len() - 1),
            values.take(addresses.len() - 1),
        )
    }
}

/// Every block of `s` after the requests of a batch.
pub open spec fn updated_blocks<V>(
    s: Seq<PathOramBlock<V>>,
    addresses: Seq<Address>,
    positions: Seq<TreeIndex>,
    values: Seq<V>,
) -> Seq<PathOramBlock<V>> {
    Seq::new(s.len(), |k: int| updated_block(s[k], addresses, positions, values))
}

/// The new blocks of a batch, in request order: one for each request whose address no block
/// of `s` has.
pub open spec fn inserted_blocks<V>(
    s: Seq<PathOramBlock<V>>,
    addresses: Seq<Address>,
    positions: Seq<TreeIndex>,
    values: Seq<V>,
) -> Seq<PathOramBlock<V>>
    decreases addresses.len(),
{
    if addresses.len() == 0 {
        Seq::empty()
    } else {
        let n = addresses.len() - 1;
        let prev = inserted_blocks(s, addresses.drop_last(), positions.take(n), values.take(n));
        if last_match(s, addresses[n]) is Some {
            prev
        } else {
            prev.push(PathOramBlock { value: values[n], address: addresses[n], position: positions[n] })
        }
    }
}

/// The number of dummy blocks in `s[k..]`.
pub open spec fn dummies_from<V>(s: Seq<PathOramBlock<V>>, k: int) -> nat
    decreases s.len() - k,
{
    if k < 0 || k >= s.len() {
        0
    } else {
        dummies_from(s, k + 1) + if is_dummy_block(s[k]) {
            1nat
        } else {
            0nat
        }
    }
}

/// `s` with its dummy blocks, taken from the end, replaced by `ins[0]`, `ins[1]`, ...
pub open spec fn fill_from_end<V>(s: Seq<PathOramBlock<V>>, ins: Seq<PathOramBlock<V>>) -> Seq<
    PathOramBlock<V>,
> {
    Seq::new(
        s.len(),
        |k: int|
            if is_dummy_block(s[k]) && dummies_from(s, k + 1) < ins.len() {
                ins[dummies_from(s, k + 1) as int]
            } else {
                s[k]
            },
    )
}

/// The stash after a batch writes `values` with `positions` at `addresses`: found blocks are
/// updated in place; when there are fewer dummy blocks than new blocks the stash grows by the
/// difference; then the new blocks take the dummy slots from the end.
pub open spec fn batch_result<V: OramBlock>(
    s: Seq<PathOramBlock<V>>,
    addresses: Seq<Address>,
    positions: Seq<TreeIndex>,
    values: Seq<V>,
) -> Seq<PathOramBlock<V>> {
    let u = updated_blocks(s, addresses, positions, values);
    let ins = inserted_blocks(s, addresses, positions, values);
    let avail = dummies_from(u, 0);
    let grown = if ins.len() > avail {
        u + dummies::<V>((ins.len() - avail) as nat)
    } else {
        u
    };
    fill_from_end(grown, ins)
}

pub proof fn lemma_dummies_from_step<V>(s: Seq<PathOramBlock<V>>, k: int)
    requires
        0 <= k < s.len(),
    ensures
        dummies_from(s, k) == dummies_from(s, k + 1) + if is_dummy_block(s[k]) {
            1nat
        } else {
            0nat
        },
{
}

pub proof fn lemma_dummies_from_monotone<V>(s: Seq<PathOramBlock<V>>, k: int, j: int)
    requires
        0 <= k <= j,
    ensures
        dummies_from(s, k) >= dummies_from(s, j),
        dummies_from(s, k) <= dummies_from(s, j) + (j - k),
    decreases j - k,
{
    if k < j {
        lemma_dummies_from_monotone(s, k + 1, j);
    }
}

/// Counting the dummies of `a + b` from a position in `a` adds all dummies of `b`.
pub proof fn lemma_dummies_from_append<V>(a: Seq<PathOramBlock<V>>, b: Seq<PathOramBlock<V>>, k: int)
    requires
        0 <= k <= a.len(),
    ensures
        dummies_from(a + b, k) == dummies_from(a, k) + dummies_from(b, 0),
    decreases a.len() - k,
{
    if k < a.len() {
        lemma_dummies_from_append(a, b, k + 1);
        assert((a + b)[k] == a[k]);
    } else {
        lemma_dummies_from_shift(a, b, 0);
    }
}

proof fn lemma_dummies_from_shift<V>(a: Seq<PathOramBlock<V>>, b: Seq<PathOramBlock<V>>, j: int)
    requires
        0 <= j <= b.len(),
    ensures
        dummies_from(a + b, a.len() + j) == dummies_from(b, j),
    decreases b.len() - j,
{
    if j < b.len() {
        lemma_dummies_from_shift(a, b, j + 1);
        assert((a + b)[a.len() + j] == b[j]);
    }
}

pub proof fn lemma_dummies_from_dummies<V: OramBlock>(n: nat, k: int)
    requires
        0 <= k <= n,
    ensures
        dummies_from(dummies::<V>(n), k) == n - k,
    decreases n - k,
{
    if k < n {
        lemma_dummies_from_dummies::<V>(n, k + 1);
    }
}

/// The blocks inserted for a prefix of the requests are a prefix of all inserted blocks.
pub proof fn lemma_inserted_prefix<V>(
    s: Seq<PathOramBlock<V>>,
    addresses: Seq<Address>,
    positions: Seq<TreeIndex>,
    values: Seq<V>,
    r: int,
)
    requires
        0 <= r <= addresses.len(),
        positions.len() == addresses.len(),
        values.len() == addresses.len(),
    ensures
        inserted_blocks(s, addresses.take(r), positions.take(r), values.take(r)).len()
            <= inserted_blocks(s, addresses, positions, values).len(),
        inserted_blocks(s, addresses.take(r), positions.take(r), values.take(r)) == inserted_blocks(
            s,
            addresses,
            positions,
            values,
        ).take(
            inserted_blocks(s, addresses.take(r), positions.take(r), values.take(r)).len() as int,
        ),
    decreases addresses.len() - r,
{
    let n = addresses.len();
    if r == n {
        assert(addresses.take(r) =~= addresses);
        assert(positions.take(r) =~= positions);
        assert(values.take(r) =~= values);
        let all = inserted_blocks(s, addresses, positions, values);
        assert(all.take(all.len() as int) =~= all);
    } else {
        let a2 = addresses.drop_last();
        let p2 = positions.take(n - 1);
        let v2 = values.take(n - 1);
        lemma_inserted_prefix(s, a2, p2, v2, r);
        assert(a2.take(r) =~= addresses.take(r));
        assert(p2.take(r) =~= positions.take(r));
        assert(v2.take(r) =~= values.take(r));
        let prev = inserted_blocks(s, a2, p2, v2);
        let all = inserted_blocks(s, addresses, positions, values);
        let pre = inserted_blocks(s, addresses.take(r), positions.take(r), values.take(r));
        assert(pre == prev.take(pre.len() as int));
        assert(all == prev || all == prev.push(
            PathOramBlock {
                value: values[n - 1],
                address: addresses[n - 1],
                position: positions[n - 1],
            },
        ));
        assert(all.take(pre.len() as int) =~= prev.take(pre.len() as int));
    }
}

/// Whether no address occurs twice in `addresses`.
pub open spec fn distinct_addresses(addresses: Seq<Address>) -> bool {
    forall|i: int, j: int| 0 <= i < j < addresses.len() ==> addresses[i] != addresses[j]
}

/// A block is updated by the request for its address, if any; it keeps its address.
pub proof fn lemma_updated_block_unique<V>(
    b: PathOramBlock<V>,
    addresses: Seq<Address>,
    positions: Seq<TreeIndex>,
    values: Seq<V>,
)
    requires
        positions.len() == addresses.len(),
        values.len() == addresses.len(),
        distinct_addresses(addresses),
    ensures
        updated_block(b, addresses, positions, values).address == b.address,
        forall|r: int|
            0 <= r < addresses.len() && addresses[r] == b.address ==> updated_block(
                b,
                addresses,
                positions,
                values,
            ) == (PathOramBlock { value: values[r], address: b.address, position: positions[r] }),
        (forall|r: int| 0 <= r < addresses.len() ==> addresses[r] != b.address) ==> updated_block(
            b,
            addresses,
            positions,
            values,
        ) == b,
    decreases addresses.len(),
{
    let n = addresses.len();
    if n > 0 {
        let a2 = addresses.drop_last();
        let p2 = positions.take(n - 1);
        let v2 = values.take(n - 1);
        lemma_updated_block_unique(b, a2, p2, v2);
        assert forall|r: int|
            0 <= r < addresses.len() && addresses[r] == b.address implies updated_block(
            b,
            addresses,
            positions,
            values,
        ) == (PathOramBlock { value: values[r], address: b.address, position: positions[r] }) by {
            if r < n - 1 {
                assert(addresses[n - 1] != addresses[r]);
                assert(a2[r] == addresses[r]);
            }
        }
        if forall|r: int| 0 <= r < addresses.len() ==> addresses[r] != b.address {
            assert forall|r: int| 0 <= r < a2.len() implies a2[r] != b.address by {
                assert(addresses[r] != b.address);
            }
        }
    }
}

/// The new blocks are exactly those of the requests whose address is not found, in order.
pub proof fn lemma_inserted_blocks<V>(
    s: Seq<PathOramBlock<V>>,
    addresses: Seq<Address>,
    positions: Seq<TreeIndex>,
    values: Seq<V>,
)
    requires
        positions.len() == addresses.len(),
        values.len() == addresses.len(),
    ensures
        forall|t: int|
            0 <= t < inserted_blocks(s, addresses, positions, values).len() ==> exists|r: int|
                0 <= r < addresses.len() && last_match(s, addresses[r]) is None && #[trigger] inserted_blocks(
                    s,
                    addresses,
                    positions,
                    values,
                )[t] == (PathOramBlock {
                    value: values[r],
                    address: addresses[r],
                    position: positions[r],
                }),
        forall|r: int|
            0 <= r < addresses.len() && last_match(s, addresses[r]) is None ==> exists|t: int|
                0 <= t < inserted_blocks(s, addresses, positions, values).len() && #[trigger] inserted_blocks(
                    s,
                    addresses,
                    positions,
                    values,
                )[t] == (PathOramBlock {
                    value: values[r],
                    address: addresses[r],
                    position: positions[r],
                }),
    decreases addresses.len(),
{
    let n = addresses.len();
    if n > 0 {
        let a2 = addresses.drop_last();
        let p2 = positions.take(n - 1);
        let v2 = values.take(n - 1);
        lemma_inserted_blocks(s, a2, p2, v2);
        let prev = inserted_blocks(s, a2, p2, v2);
        let all = inserted_blocks(s, addresses, positions, values);
        assert forall|t: int| 0 <= t < all.len() implies exists|r: int|
            0 <= r < addresses.len() && last_match(s, addresses[r]) is None && #[trigger] all[t]
                == (PathOramBlock {
                value: values[r],
                address: addresses[r],
                position: positions[r],
            }) by {
            if t < prev.len() {
                assert(all[t] == prev[t]);
                let r = choose|r: int|
                    0 <= r < a2.len() && last_match(s, a2[r]) is None && #[trigger] prev[t]
                        == (PathOramBlock { value: v2[r], address: a2[r], position: p2[r] });
                assert(addresses[r] == a2[r]);
            } else {
                assert(all[t] == (PathOramBlock {
                    value: values[n - 1],
                    address: addresses[n - 1],
                    position: positions[n - 1],
                }));
            }
        }
        assert forall|r: int| 0 <= r < addresses.len() && last_match(s, addresses[r]) is None implies exists|t: int|
            0 <= t < all.len() && #[trigger] all[t] == (PathOramBlock {
                value: values[r],
                address: addresses[r],
                position: positions[r],
            }) by {
            if r < n - 1 {
                assert(a2[r] == addresses[r]);
                let t = choose|t: int|
                    0 <= t < prev.len() && #[trigger] prev[t] == (PathOramBlock {
                        value: v2[r],
                        address: a2[r],
                        position: p2[r],
                    });
                assert(all[t] == prev[t]);
            } else {
                assert(all[prev.len() as int] == (PathOramBlock {
                    value: values[n - 1],
                    address: addresses[n - 1],
                    position: positions[n - 1],
                }));
            }
        }
    }
}

/// Below the number of dummy blocks of `g`, every count is the rank of some dummy block.
pub proof fn lemma_dummy_with_rank<V>(g: Seq<PathOramBlock<V>>, k: int, t: int)
    requires
        0 <= k <= g.len(),
        dummies_from(g, k) <= t < dummies_from(g, 0),
    ensures
        exists|j: int| 0 <= j < k && is_dummy_block(g[j]) && #[trigger] dummies_from(g, j + 1) == t,
    decreases k,
{
    if k == 0 {
    } else {
        lemma_dummies_from_step(g, k - 1);
        if is_dummy_block(g[k - 1]) && dummies_from(g, k) == t {
            assert(dummies_from(g, (k - 1) + 1) == t);
        } else {
            lemma_dummy_with_rank(g, k - 1, t);
        }
    }
}

/// A batch remaps every block it touches: after a batch of requests to distinct real
/// addresses, every block of the stash that carries a requested address holds that
/// request's new position and value, whether it was found in the stash or inserted.
pub proof fn law_batch_remaps_requested_blocks<V: OramBlock>(
    s: Seq<PathOramBlock<V>>,
    addresses: Seq<Address>,
    positions: Seq<TreeIndex>,
    values: Seq<V>,
)
    requires
        positions.len() == addresses.len(),
        values.len() == addresses.len(),
        distinct_addresses(addresses),
        forall|r: int| 0 <= r < addresses.len() ==> addresses[r] != DUMMY_ADDRESS,
    ensures
        forall|k: int, r: int|
            0 <= k < batch_result(s, addresses, positions, values).len() && 0 <= r
                < addresses.len() && #[trigger] batch_result(s, addresses, positions, values)[k].address
                == #[trigger] addresses[r] ==> batch_result(s, addresses, positions, values)[k].position
                == positions[r] && batch_result(s, addresses, positions, values)[k].value == values[r],
{
    let u = updated_blocks(s, addresses, positions, values);
    let ins = inserted_blocks(s, addresses, positions, values);
    let avail = dummies_from(u, 0);
    let grown = if ins.len() > avail {
        u + dummies::<V>((ins.len() - avail) as nat)
    } else {
        u
    };
    let fin = batch_result(s, addresses, positions, values);
    assert(fin == fill_from_end(grown, ins));
    lemma_inserted_blocks(s, addresses, positions, values);
    assert forall|k: int, r: int|
        0 <= k < fin.len() && 0 <= r < addresses.len() && #[trigger] fin[k].address
            == #[trigger] addresses[r] implies fin[k].position == positions[r] && fin[k].value
        == values[r] by {
        if is_dummy_block(grown[k]) && dummies_from(grown, k + 1) < ins.len() {
            let t = dummies_from(grown, k + 1) as int;
            assert(fin[k] == ins[t]);
            let r2 = choose|r2: int|
                0 <= r2 < addresses.len() && last_match(s, addresses[r2]) is None
                    && #[trigger] inserted_blocks(s, addresses, positions, values)[t] == (PathOramBlock {
                    value: values[r2],
                    address: addresses[r2],
                    position: positions[r2],
                });
            if r2 != r {
                if r2 < r {
                    assert(addresses[r2] != addresses[r]);
                } else {
                    assert(addresses[r] != addresses[r2]);
                }
            }
        } else {
            assert(fin[k] == grown[k]);
            if k < u.len() {
                assert(grown[k] == u[k]);
                lemma_updated_block_unique(s[k], addresses, positions, values);
            } else {
                assert(grown[k] == crate::block::dummy_block::<V>());
            }
        }
    }
}

/// Reading back a batch of writes to distinct real addresses, with real positions, gives the
/// values written.
pub proof fn law_batch_read_after_write<V: OramBlock>(
    s: Seq<PathOramBlock<V>>,
    addresses: Seq<Address>,
    positions: Seq<TreeIndex>,
    values: Seq<V>,
)
    requires
        positions.len() == addresses.len(),
        values.len() == addresses.len(),
        distinct_addresses(addresses),
        forall|r: int| 0 <= r < addresses.len() ==> addresses[r] != DUMMY_ADDRESS,
        forall|r: int| 0 <= r < addresses.len() ==> positions[r] != 0,
    ensures
        batch_lookup(batch_result(s, addresses, positions, values), addresses) == values,
{
    let u = updated_blocks(s, addresses, positions, values);
    let ins = inserted_blocks(s, addresses, positions, values);
    let avail = dummies_from(u, 0);
    let grown = if ins.len() > avail {
        u + dummies::<V>((ins.len() - avail) as nat)
    } else {
        u
    };
    let fin = batch_result(s, addresses, positions, values);
    assert(fin == fill_from_end(grown, ins));
    lemma_inserted_blocks(s, addresses, positions, values);
    if ins.len() > avail {
        lemma_dummies_from_append(u, dummies::<V>((ins.len() - avail) as nat), 0);
        lemma_dummies_from_dummies::<V>((ins.len() - avail) as nat, 0);
    }
    assert(dummies_from(grown, 0) >= ins.len());
    assert forall|k: int| 0 <= k < u.len() implies #[trigger] grown[k] == u[k] by {}
    assert forall|k: int| 0 <= k < s.len() implies #[trigger] u[k].address == s[k].address by {
        lemma_updated_block_unique(s[k], addresses, positions, values);
    }
    // Every block of the grown stash that is not one of the old blocks is a dummy.
    assert forall|k: int| u.len() <= k < grown.len() implies #[trigger] grown[k] == crate::block::dummy_block::<V>() by {}
    assert forall|r: int| 0 <= r < addresses.len() implies #[trigger] lookup(fin, addresses[r])
        == values[r] by {
        let a = addresses[r];
        lemma_last_match_bounds(s, a);
        match last_match(s, a) {
            Some(k0) => {
                lemma_updated_block_unique(s[k0], addresses, positions, values);
                assert(u[k0] == (PathOramBlock {
                    value: values[r],
                    address: a,
                    position: positions[r],
                }));
                assert(fin[k0] == u[k0]);
                assert forall|j: int| k0 < j < fin.len() implies fin[j].address != a by {
                    if is_dummy_block(grown[j]) && dummies_from(grown, j + 1) < ins.len() {
                        let t = dummies_from(grown, j + 1) as int;
                        let r2 = choose|r2: int|
                            0 <= r2 < addresses.len() && last_match(s, addresses[r2]) is None
                                && #[trigger] ins[t] == (PathOramBlock {
                                value: values[r2],
                                address: addresses[r2],
                                position: positions[r2],
                            });
                        assert(r2 != r);
                    } else if j < u.len() {
                        assert(s[j].address != a);
                    }
                }
                lemma_last_match_at(fin, a, k0);
            },
            None => {
                let t = choose|t: int|
                    0 <= t < ins.len() && #[trigger] ins[t] == (PathOramBlock {
                        value: values[r],
                        address: addresses[r],
                        position: positions[r],
                    });
                lemma_dummy_with_rank(grown, grown.len() as int, t);
                let k = choose|k: int|
                    0 <= k < grown.len() && is_dummy_block(grown[k]) && #[trigger] dummies_from(
                        grown,
                        k + 1,
                    ) == t;
                assert(fin[k] == ins[t]);
                assert forall|j: int| k < j < fin.len() implies fin[j].address != a by {
                    if is_dummy_block(grown[j]) && dummies_from(grown, j + 1) < ins.len() {
                        let t2 = dummies_from(grown, j + 1) as int;
                        let r2 = choose|r2: int|
                            0 <= r2 < addresses.len() && last_match(s, addresses[r2]) is None
                                && #[trigger] ins[t2] == (PathOramBlock {
                                value: values[r2],
                                address: addresses[r2],
                                position: positions[r2],
                            });
                        lemma_dummies_from_monotone(grown, k + 1, j);
                        lemma_dummies_from_step(grown, j);
                        assert(t2 < t);
                        if r2 == r {
                            // The same request cannot be inserted twice: its block differs.
                            assert(ins[t2] == ins[t]);
                            lemma_inserted_distinct(s, addresses, positions, values, t2, t);
                        }
                    } else if j < u.len() {
                        assert(s[j].address != a);
                    }
                }
                lemma_last_match_at(fin, a, k);
            },
        }
    }
    assert(batch_lookup(fin, addresses) =~= values);
}

/// The new blocks have pairwise different addresses when the requests do.
pub proof fn lemma_inserted_distinct<V>(
    s: Seq<PathOramBlock<V>>,
    addresses: Seq<Address>,
    positions: Seq<TreeIndex>,
    values: Seq<V>,
    t1: int,
    t2: int,
)
    requires
        positions.len() == addresses.len(),
        values.len() == addresses.len(),
        distinct_addresses(addresses),
        0 <= t1 < t2 < inserted_blocks(s, addresses, positions, values).len(),
    ensures
        inserted_blocks(s, addresses, positions, values)[t1].address != inserted_blocks(
            s,
            addresses,
            positions,
            values,
        )[t2].address,
    decreases addresses.len(),
{
    let n = addresses.len();
    let a2 = addresses.drop_last();
    let p2 = positions.take(n - 1);
    let v2 = values.take(n - 1);
    let prev = inserted_blocks(s, a2, p2, v2);
    assert(distinct_addresses(a2));
    if t2 < prev.len() {
        lemma_inserted_distinct(s, a2, p2, v2, t1, t2);
    } else {
        lemma_inserted_blocks(s, a2, p2, v2);
        let r1 = choose|r: int|
            0 <= r < a2.len() && last_match(s, a2[r]) is None && #[trigger] prev[t1]
                == (PathOramBlock { value: v2[r], address: a2[r], position: p2[r] });
        assert(addresses[r1] != addresses[n - 1]);
    }
}

} // verus!
