//! A simple linear-time implementation of Oblivious RAM.

use crate::ct::{ct_eq_u64, ct_lt_u64};
use crate::{format_expected_got, expected_got_text, Address, OramBlock, OramError};
use vstd::prelude::*;

verus! {

/// A simple ORAM that, for each access, ensures obliviousness by making a complete pass
/// over the database, reading and writing each memory location.
#[derive(Debug)]
pub struct LinearTimeOram<V: OramBlock> {
    /// The memory of the ORAM (public for benchmarking).
    pub physical_memory: Vec<V>,
}

impl<V: OramBlock> View for LinearTimeOram<V> {
    type V = Seq<V>;

    open spec fn view(&self) -> Seq<V> {
        self.physical_memory@
    }
}

/// The memory of a freshly created ORAM of `n` blocks: `n` default values.
pub open spec fn fresh_memory<V: OramBlock>(n: nat) -> Seq<V> {
    Seq::new(n, |i: int| V::default_value())
}

/// The values that a batch reads: the value at each requested index, in request order.
pub open spec fn read_batch<V>(m: Seq<V>, indices: Seq<Address>) -> Seq<V> {
    Seq::new(indices.len(), |j: int| m[indices[j] as int])
}

/// The value that position `i`, holding `v`, holds after a batch writes `values[j]` at
/// `indices[j]` for each `j` in order: the value of the last request for `i`, if any.
pub open spec fn written_value<V>(v: V, indices: Seq<Address>, values: Seq<V>, i: int) -> V
    decreases indices.len(),
{
    if indices.len() == 0 {
        v
    } else if indices.last() == i {
        values[indices.len() - 1]
    } else {
        written_value(v, indices.drop_last(), values.take(indices.len() - 1), i)
    }
}

/// The memory after a batch writes `values[j]` at `indices[j]` for each `j` in order,
/// so that among repeated indices the last request wins.
pub open spec fn write_batch<V>(m: Seq<V>, indices: Seq<Address>, values: Seq<V>) -> Seq<V> {
    Seq::new(m.len(), |i: int| written_value(m[i], indices, values, i))
}

/// The position of the first index of `indices` that is at least `capacity`, if any.
pub open spec fn first_out_of_bounds(indices: Seq<Address>, capacity: nat) -> Option<int> {
    if exists|j: int| 0 <= j < indices.len() && indices[j] >= capacity {
        Some(
            choose|j: int|
                0 <= j < indices.len() && indices[j] >= capacity && forall|k: int|
                    0 <= k < j ==> indices[k] < capacity,
        )
    } else {
        None
    }
}

/// The batch of references handed to a batched callback holds the values read.
pub open spec fn refs_hold<V>(refs: Seq<&V>, values: Seq<V>) -> bool {
    refs.len() == values.len() && forall|k: int| 0 <= k < values.len() ==> *refs[k] == values[k]
}

proof fn lemma_first_out_of_bounds(indices: Seq<Address>, capacity: nat, j: int)
    requires
        0 <= j < indices.len(),
        indices[j] >= capacity,
        forall|k: int| 0 <= k < j ==> indices[k] < capacity,
    ensures
        first_out_of_bounds(indices, capacity) == Some(j),
{
    let c = choose|i: int|
        0 <= i < indices.len() && indices[i] >= capacity && forall|k: int|
            0 <= k < i ==> indices[k] < capacity;
    assert(0 <= c < indices.len() && indices[c] >= capacity && forall|k: int|
        0 <= k < c ==> indices[k] < capacity);
    if c < j {
        assert(indices[c] < capacity);
    }
    if j < c {
        assert(indices[j] < capacity);
    }
}

/// Whether no index occurs twice in `indices`.
pub open spec fn distinct_indices(indices: Seq<Address>) -> bool {
    forall|j: int, k: int| 0 <= j < k < indices.len() ==> indices[j] != indices[k]
}

/// A read of a position gives back the value that the last write to it wrote, and a write
/// leaves every other position as it was.
pub proof fn law_read_after_write<V>(m: Seq<V>, i: int, v: V)
    requires
        0 <= i < m.len(),
    ensures
        m.update(i, v)[i] == v,
        forall|j: int| 0 <= j < m.len() && j != i ==> m.update(i, v)[j] == m[j],
{
}

/// Each position gets the last write aimed at it, so a batch of distinct positions is read
/// back exactly as it was written.
pub proof fn law_read_batch_after_write_batch<V>(m: Seq<V>, indices: Seq<Address>, values: Seq<V>)
    requires
        values.len() == indices.len(),
        distinct_indices(indices),
        forall|j: int| 0 <= j < indices.len() ==> indices[j] < m.len(),
    ensures
        read_batch(write_batch(m, indices, values), indices) == values,
{
    assert forall|j: int| 0 <= j < indices.len() implies #[trigger] written_value(
        m[indices[j] as int],
        indices,
        values,
        indices[j] as int,
    ) == values[j] by {
        lemma_written_value_at(m[indices[j] as int], indices, values, j);
    }
    assert(read_batch(write_batch(m, indices, values), indices) =~= values);
}

proof fn lemma_written_value_at<V>(v: V, indices: Seq<Address>, values: Seq<V>, j: int)
    requires
        values.len() == indices.len(),
        distinct_indices(indices),
        0 <= j < indices.len(),
    ensures
        written_value(v, indices, values, indices[j] as int) == values[j],
    decreases indices.len(),
{
    let n = indices.len();
    if j < n - 1 {
        assert(indices[n - 1] != indices[j]);
        let pi = indices.drop_last();
        let pv = values.take(n - 1);
        lemma_written_value_at(v, pi, pv, j);
    }
}

/// The memory after single writes of `values[j]` at `indices[j]`, one after the other.
pub open spec fn sequential_writes<V>(m: Seq<V>, indices: Seq<Address>, values: Seq<V>) -> Seq<V>
    decreases indices.len(),
{
    if indices.len() == 0 {
        m
    } else {
        sequential_writes(m, indices.drop_last(), values.take(indices.len() - 1)).update(
            indices.last() as int,
            values[indices.len() - 1],
        )
    }
}

proof fn lemma_batch_is_sequential<V>(m: Seq<V>, indices: Seq<Address>, values: Seq<V>)
    requires
        values.len() == indices.len(),
        forall|j: int| 0 <= j < indices.len() ==> indices[j] < m.len(),
    ensures
        write_batch(m, indices, values) == sequential_writes(m, indices, values),
    decreases indices.len(),
{
    if indices.len() == 0 {
        assert(write_batch(m, indices, values) =~= m);
    } else {
        let n = indices.len();
        let pi = indices.drop_last();
        let pv = values.take(n - 1);
        lemma_batch_is_sequential(m, pi, pv);
        assert(write_batch(m, indices, values) =~= write_batch(m, pi, pv).update(
            indices.last() as int,
            values[n - 1],
        ));
    }
}

proof fn lemma_written_value_untouched<V>(v: V, indices: Seq<Address>, values: Seq<V>, i: int)
    requires
        forall|j: int| 0 <= j < indices.len() ==> indices[j] != i,
    ensures
        written_value(v, indices, values, i) == v,
    decreases indices.len(),
{
    if indices.len() > 0 {
        assert(indices[indices.len() - 1] != i);
        lemma_written_value_untouched(v, indices.drop_last(), values.take(indices.len() - 1), i);
    }
}

/// A batch does what its single accesses do one after the other: the memory afterwards is
/// that of the single writes in request order, and, when the indices are distinct, the
/// single read of request `j`, made after the writes of the requests before it, returns
/// what the batch reads for request `j`.
pub proof fn law_batch_is_sequence_of_accesses<V>(m: Seq<V>, indices: Seq<Address>, values: Seq<V>)
    requires
        values.len() == indices.len(),
        forall|j: int| 0 <= j < indices.len() ==> indices[j] < m.len(),
    ensures
        write_batch(m, indices, values) == sequential_writes(m, indices, values),
        distinct_indices(indices) ==> forall|j: int|
            0 <= j < indices.len() ==> #[trigger] sequential_writes(
                m,
                indices.take(j),
                values.take(j),
            )[indices[j] as int] == read_batch(m, indices)[j],
{
    lemma_batch_is_sequential(m, indices, values);
    if distinct_indices(indices) {
        assert forall|j: int| 0 <= j < indices.len() implies #[trigger] sequential_writes(
            m,
            indices.take(j),
            values.take(j),
        )[indices[j] as int] == read_batch(m, indices)[j] by {
            let ti = indices.take(j);
            let tv = values.take(j);
            lemma_batch_is_sequential(m, ti, tv);
            assert forall|k: int| 0 <= k < ti.len() implies ti[k] != indices[j] by {
                assert(ti[k] == indices[k]);
            }
            lemma_written_value_untouched(m[indices[j] as int], ti, tv, indices[j] as int);
        }
    }
}

/// Writing back, as a batch, the values that a batch read leaves the memory unchanged.
pub proof fn law_write_back_what_was_read<V>(m: Seq<V>, indices: Seq<Address>)
    requires
        forall|j: int| 0 <= j < indices.len() ==> indices[j] < m.len(),
    ensures
        write_batch(m, indices, read_batch(m, indices)) == m,
{
    assert forall|i: int| 0 <= i < m.len() implies #[trigger] written_value(
        m[i],
        indices,
        read_batch(m, indices),
        i,
    ) == m[i] by {
        lemma_written_value_read(m, indices, i);
    }
    assert(write_batch(m, indices, read_batch(m, indices)) =~= m);
}

proof fn lemma_written_value_read<V>(m: Seq<V>, indices: Seq<Address>, i: int)
    requires
        0 <= i < m.len(),
        forall|j: int| 0 <= j < indices.len() ==> indices[j] < m.len(),
    ensures
        written_value(m[i], indices, read_batch(m, indices), i) == m[i],
    decreases indices.len(),
{
    if indices.len() > 0 {
        let n = indices.len();
        assert(read_batch(m, indices).take(n - 1) =~= read_batch(m, indices.drop_last()));
        lemma_written_value_read(m, indices.drop_last(), i);
    }
}

impl<V: OramBlock> LinearTimeOram<V> {
    /// Returns a new `LinearTimeOram` mapping addresses `0 <= address < block_capacity` to
    /// default `V` values.
    pub fn new(block_capacity: Address) -> (r: Result<Self, OramError>)
        ensures
            block_capacity <= usize::MAX ==> (r matches Ok(o) && o@ == fresh_memory::<V>(
                block_capacity as nat,
            )),
            block_capacity > usize::MAX ==> r matches Err(OramError::IntegerConversionError),
    {
        if block_capacity > usize::MAX as u64 {
            return Err(OramError::IntegerConversionError);
        }
        let n: usize = block_capacity as usize;
        let mut physical_memory: Vec<V> = Vec::new();
        let mut i: usize = 0;
        while i < n
            invariant
                i <= n,
                n == block_capacity,
                physical_memory@ == fresh_memory::<V>(i as nat),
            decreases n - i,
        {
            physical_memory.push(V::default_block());
            i = i + 1;
            assert(physical_memory@ =~= fresh_memory::<V>(i as nat));
        }
        Ok(LinearTimeOram { physical_memory })
    }

    /// The number of blocks that this ORAM holds.
    pub fn block_capacity(&self) -> (r: Result<Address, OramError>)
        ensures
            r matches Ok(c) && c == self@.len(),
    {
        Ok(self.physical_memory.len() as u64)
    }

    /// Reads the block at `index` and replaces it by `callback` applied to it, touching every
    /// block of the memory in the same way.
    ///
    /// Returns the value that was at `index`, or an error if `index` is out of bounds, in which
    /// case the memory is unchanged.
    pub fn access<F: Fn(&V) -> V>(&mut self, index: Address, callback: F) -> (r: Result<
        V,
        OramError,
    >)
        requires
            forall|i: int| 0 <= i < old(self)@.len() ==> callback.requires((&old(self)@[i],)),
        ensures
            index >= old(self)@.len() ==> r == Err::<V, OramError>(
                OramError::AddressOutOfBoundsError {
                    attempted: index,
                    capacity: old(self)@.len() as u64,
                },
            ) && final(self)@ == old(self)@,
            index < old(self)@.len() ==> {
                &&& r == Ok::<V, OramError>(old(self)@[index as int])
                &&& final(self)@.len() == old(self)@.len()
                &&& callback.ensures((&old(self)@[index as int],), final(self)@[index as int])
                &&& forall|j: int|
                    0 <= j < old(self)@.len() && j != index ==> final(self)@[j] == old(self)@[j]
            },
    {
        let capacity: u64 = self.physical_memory.len() as u64;
        let index_in_bounds = ct_lt_u64(index, capacity);
        // Not constant time: this only leaks whether the index is well-formed.
        if !index_in_bounds {
            return Err(OramError::AddressOutOfBoundsError { attempted: index, capacity });
        }
        // A dummy value which is always overwritten.
        let mut result = V::default_block();
        let ghost old_mem = self@;
        let n = self.physical_memory.len();
        for i in 0..n
            invariant
                n == old_mem.len(),
                index < n,
                self@.len() == n,
                forall|k: int| 0 <= k < n ==> callback.requires((&old_mem[k],)),
                forall|k: int| i <= k < n ==> self@[k] == old_mem[k],
                forall|k: int| 0 <= k < i && k != index ==> self@[k] == old_mem[k],
                i > index ==> result == old_mem[index as int],
                i > index ==> callback.ensures((&old_mem[index as int],), self@[index as int]),
        {
            let entry = self.physical_memory[i];
            assert(callback.requires((&old_mem[i as int],)));
            let is_requested_index = ct_eq_u64(i as u64, index);
            result = V::conditional_select(&result, &entry, is_requested_index);
            let potential_new_value = callback(&entry);
            let updated = V::conditional_select(
                &entry,
                &potential_new_value,
                is_requested_index,
            );
            self.physical_memory.set(i, updated);
        }
        Ok(result)
    }

    /// Reads the block at `index`.
    pub fn read(&mut self, index: Address) -> (r: Result<V, OramError>)
        ensures
            final(self)@ == old(self)@,
            index >= old(self)@.len() ==> r == Err::<V, OramError>(
                OramError::AddressOutOfBoundsError {
                    attempted: index,
                    capacity: old(self)@.len() as u64,
                },
            ),
            index < old(self)@.len() ==> r == Ok::<V, OramError>(old(self)@[index as int]),
    {
        let r = self.access(index, |v: &V| -> (w: V) ensures w == *v { *v });
        proof {
            if index < old(self)@.len() {
                assert(self@ =~= old(self)@);
            }
        }
        r
    }

    /// Writes `new_value` at `index` and returns the value that was there.
    pub fn write(&mut self, index: Address, new_value: V) -> (r: Result<V, OramError>)
        ensures
            index >= old(self)@.len() ==> r == Err::<V, OramError>(
                OramError::AddressOutOfBoundsError {
                    attempted: index,
                    capacity: old(self)@.len() as u64,
                },
            ) && final(self)@ == old(self)@,
            index < old(self)@.len() ==> r == Ok::<V, OramError>(old(self)@[index as int])
                && final(self)@ == old(self)@.update(index as int, new_value),
    {
        let r = self.access(index, |v: &V| -> (w: V) ensures w == new_value { new_value });
        proof {
            if index < old(self)@.len() {
                assert(self@ =~= old(self)@.update(index as int, new_value));
            }
        }
        r
    }

    /// Returns the position of the first index that is not below `capacity`, if any.
    fn first_out_of_bounds_index(indices: &Vec<Address>, capacity: u64) -> (r: Option<usize>)
        ensures
            r matches Some(j) ==> j < indices@.len() && first_out_of_bounds(indices@, capacity as nat)
                == Some(j as int),
            r is None ==> first_out_of_bounds(indices@, capacity as nat) is None,
    {
        let mut j: usize = 0;
        while j < indices.len()
            invariant
                j <= indices.len(),
                forall|k: int| 0 <= k < j ==> indices@[k] < capacity,
            decreases indices.len() - j,
        {
            let in_bounds = ct_lt_u64(indices[j], capacity);
            if !in_bounds {
                proof {
                    lemma_first_out_of_bounds(indices@, capacity as nat, j as int);
                }
                return Some(j);
            }
            j = j + 1;
        }
        None
    }

    /// Reads the block at each of `indices`, making one pass over the whole memory.
    pub fn oblivious_read_batch(&self, indices: &Vec<Address>) -> (r: Vec<V>)
        requires
            forall|j: int| 0 <= j < indices@.len() ==> indices@[j] < self@.len(),
        ensures
            r@ == read_batch(self@, indices@),
    {
        let mut results: Vec<V> = Vec::new();
        let mut j: usize = 0;
        while j < indices.len()
            invariant
                j <= indices.len(),
                results@.len() == j,
                forall|k: int| 0 <= k < j ==> results@[k] == V::default_value(),
            decreases indices.len() - j,
        {
            results.push(V::default_block());
            j = j + 1;
        }
        let n = self.physical_memory.len();
        for i in 0..n
            invariant
                n == self@.len(),
                results@.len() == indices@.len(),
                forall|k: int| 0 <= k < indices@.len() ==> indices@[k] < n,
                forall|k: int|
                    0 <= k < indices@.len() && indices@[k] < i ==> results@[k]
                        == self@[indices@[k] as int],
        {
            let entry = self.physical_memory[i];
            let physical_index: u64 = i as u64;
            for j in 0..indices.len()
                invariant
                    n == self@.len(),
                    i < n,
                    entry == self@[i as int],
                    physical_index == i,
                    results@.len() == indices@.len(),
                    forall|k: int| 0 <= k < indices@.len() ==> indices@[k] < n,
                    forall|k: int|
                        0 <= k < indices@.len() && indices@[k] < i ==> results@[k]
                            == self@[indices@[k] as int],
                    forall|k: int|
                        0 <= k < j && indices@[k] == i ==> results@[k] == self@[indices@[k] as int],
            {
                let is_requested_index = ct_eq_u64(physical_index, indices[j]);
                let selected = V::conditional_select(&results[j], &entry, is_requested_index);
                results.set(j, selected);
            }
        }
        assert(results@ =~= read_batch(self@, indices@));
        results
    }

    /// Writes `new_values[j]` at `indices[j]` for each `j` in order, making one pass over the
    /// whole memory; among repeated indices the last request wins.
    pub fn oblivious_write_batch(&mut self, indices: &Vec<Address>, new_values: &Vec<V>)
        requires
            forall|j: int| 0 <= j < indices@.len() ==> indices@[j] < old(self)@.len(),
            new_values@.len() == indices@.len(),
        ensures
            final(self)@ == write_batch(old(self)@, indices@, new_values@),
    {
        let ghost old_mem = self@;
        let n = self.physical_memory.len();
        for i in 0..n
            invariant
                n == old_mem.len(),
                self@.len() == n,
                new_values@.len() == indices@.len(),
                forall|k: int| 0 <= k < i ==> self@[k] == written_value(
                    old_mem[k],
                    indices@,
                    new_values@,
                    k,
                ),
                forall|k: int| i <= k < n ==> self@[k] == old_mem[k],
        {
            let physical_index: u64 = i as u64;
            let mut entry = self.physical_memory[i];
            for j in 0..indices.len()
                invariant
                    i < n,
                    physical_index == i,
                    new_values@.len() == indices@.len(),
                    entry == written_value(
                        old_mem[i as int],
                        indices@.take(j as int),
                        new_values@.take(j as int),
                        i as int,
                    ),
            {
                let is_requested_index = ct_eq_u64(physical_index, indices[j]);
                entry = V::conditional_select(&entry, &new_values[j], is_requested_index);
                proof {
                    let ti = indices@.take(j + 1);
                    let tv = new_values@.take(j + 1);
                    assert(ti.drop_last() =~= indices@.take(j as int));
                    assert(tv.take(j as int) =~= new_values@.take(j as int));
                }
            }
            proof {
                assert(indices@.take(indices@.len() as int) =~= indices@);
                assert(new_values@.take(indices@.len() as int) =~= new_values@);
            }
            self.physical_memory.set(i, entry);
        }
        assert(self@ =~= write_batch(old_mem, indices@, new_values@));
    }

    /// Reads the blocks at `indices`, hands references to them to `callback`, and writes the
    /// values it returns back at `indices`, making complete passes over the memory.
    ///
    /// Errors: an index out of bounds (nothing is read or written), or a callback result of
    /// the wrong length (nothing is written).
    pub fn batched_access<F: Fn(Vec<&V>) -> Vec<V>>(
        &mut self,
        indices: Vec<Address>,
        callback: F,
    ) -> (r: Result<Vec<V>, OramError>)
        requires
            forall|refs: Vec<&V>|
                refs_hold(refs@, read_batch(old(self)@, indices@)) ==> callback.requires((refs,)),
        ensures
            first_out_of_bounds(indices@, old(self)@.len()) matches Some(j) ==> r == Err::<
                Vec<V>,
                OramError,
            >(
                OramError::AddressOutOfBoundsError {
                    attempted: indices@[j],
                    capacity: old(self)@.len() as u64,
                },
            ) && final(self)@ == old(self)@,
            first_out_of_bounds(indices@, old(self)@.len()) is None ==> match r {
                Ok(res) => {
                    &&& res@ == read_batch(old(self)@, indices@)
                    &&& exists|refs: Vec<&V>, w: Vec<V>|
                        {
                            &&& refs_hold(refs@, res@)
                            &&& callback.ensures((refs,), w)
                            &&& w@.len() == indices@.len()
                            &&& final(self)@ == write_batch(old(self)@, indices@, w@)
                        }
                },
                Err(e) => {
                    &&& final(self)@ == old(self)@
                    &&& exists|refs: Vec<&V>, w: Vec<V>|
                        {
                            &&& refs_hold(refs@, read_batch(old(self)@, indices@))
                            &&& callback.ensures((refs,), w)
                            &&& w@.len() != indices@.len()
                            &&& e matches OramError::InvalidConfigurationError {
                                parameter_name,
                                parameter_value,
                            } && parameter_name@ == "callback output length"@
                                && parameter_value@ == expected_got_text(
                                indices@.len(),
                                w@.len(),
                            )
                        }
                },
            },
    {
        let capacity: u64 = self.physical_memory.len() as u64;
        match Self::first_out_of_bounds_index(&indices, capacity) {
            Some(j) => {
                return Err(
                    OramError::AddressOutOfBoundsError { attempted: indices[j], capacity },
                );
            },
            None => {},
        }
        proof {
            assert forall|j: int| 0 <= j < indices@.len() implies indices@[j] < capacity by {
                if indices@[j] >= capacity {
                    assert(exists|k: int| 0 <= k < indices@.len() && indices@[k] >= capacity);
                }
            }
        }
        // First pass: obliviously read out all requested entries.
        let results = self.oblivious_read_batch(&indices);
        // Feed references to the old values into the callback.
        let mut callback_input: Vec<&V> = Vec::new();
        let mut k: usize = 0;
        while k < results.len()
            invariant
                k <= results@.len(),
                callback_input@.len() == k,
                forall|m: int| 0 <= m < k ==> *callback_input@[m] == results@[m],
            decreases results.len() - k,
        {
            callback_input.push(&results[k]);
            k = k + 1;
        }
        let ghost refs = callback_input;
        assert(refs_hold(callback_input@, read_batch(old(self)@, indices@)));
        let new_values = callback(callback_input);
        if new_values.len() != indices.len() {
            let parameter_name = "callback output length".to_owned();
            let parameter_value = format_expected_got(indices.len(), new_values.len());
            let e = OramError::InvalidConfigurationError { parameter_name, parameter_value };
            assert(refs_hold(refs@, read_batch(old(self)@, indices@)));
            return Err(e);
        }
        // Second pass: obliviously write back the updated values.
        self.oblivious_write_batch(&indices, &new_values);
        assert(refs_hold(refs@, results@));
        Ok(results)
    }

    /// Reads the blocks at `indices` in one batch, leaving the memory as it was.
    pub fn read_with_batch(&mut self, indices: Vec<Address>) -> (r: Result<Vec<V>, OramError>)
        ensures
            final(self)@ == old(self)@,
            first_out_of_bounds(indices@, old(self)@.len()) matches Some(j) ==> r == Err::<
                Vec<V>,
                OramError,
            >(
                OramError::AddressOutOfBoundsError {
                    attempted: indices@[j],
                    capacity: old(self)@.len() as u64,
                },
            ),
            first_out_of_bounds(indices@, old(self)@.len()) is None ==> (r matches Ok(res)
                && res@ == read_batch(old(self)@, indices@)),
    {
        let ghost indices_view = indices@;
        let copy_values = |refs: Vec<&V>| -> (w: Vec<V>)
            ensures
                w@.len() == refs@.len(),
                forall|k: int| 0 <= k < refs@.len() ==> w@[k] == *refs@[k],
            {
                let mut w: Vec<V> = Vec::new();
                let mut k: usize = 0;
                while k < refs.len()
                    invariant
                        k <= refs@.len(),
                        w@.len() == k,
                        forall|m: int| 0 <= m < k ==> w@[m] == *refs@[m],
                    decreases refs.len() - k,
                {
                    w.push(*refs[k]);
                    k = k + 1;
                }
                w
            };
        let r = self.batched_access(indices, copy_values);
        proof {
            if first_out_of_bounds(indices_view, old(self)@.len()) is None {
                assert forall|j: int| 0 <= j < indices_view.len() implies indices_view[j] < old(
                    self,
                )@.len() by {
                    if indices_view[j] >= old(self)@.len() {
                        assert(exists|k: int|
                            0 <= k < indices_view.len() && indices_view[k] >= old(self)@.len());
                    }
                }
                match &r {
                    Ok(res) => {
                        let (refs, w) = choose|refs: Vec<&V>, w: Vec<V>|
                            {
                                &&& refs_hold(refs@, res@)
                                &&& copy_values.ensures((refs,), w)
                                &&& w@.len() == indices_view.len()
                                &&& self@ == write_batch(old(self)@, indices_view, w@)
                            };
                        assert(w@ =~= read_batch(old(self)@, indices_view));
                        law_write_back_what_was_read(old(self)@, indices_view);
                        assert(res@ =~= read_batch(old(self)@, indices_view));
                    },
                    Err(e) => {},
                }
            }
        }
        r
    }

    /// Writes `new_values[j]` at `indices[j]` for each `j` in one batch and returns the values
    /// that were there; among repeated indices the last write wins.
    ///
    /// Errors: an index out of bounds, or `new_values` of another length than `indices`; in
    /// both cases nothing is written.
    pub fn write_with_batch(&mut self, indices: Vec<Address>, new_values: Vec<V>) -> (r: Result<
        Vec<V>,
        OramError,
    >)
        ensures
            first_out_of_bounds(indices@, old(self)@.len()) matches Some(j) ==> r == Err::<
                Vec<V>,
                OramError,
            >(
                OramError::AddressOutOfBoundsError {
                    attempted: indices@[j],
                    capacity: old(self)@.len() as u64,
                },
            ) && final(self)@ == old(self)@,
            first_out_of_bounds(indices@, old(self)@.len()) is None && new_values@.len()
                != indices@.len() ==> final(self)@ == old(self)@ && (r matches Err(
                OramError::InvalidConfigurationError { parameter_name, parameter_value },
            ) && parameter_name@ == "callback output length"@ && parameter_value@
                == expected_got_text(indices@.len(), new_values@.len())),
            first_out_of_bounds(indices@, old(self)@.len()) is None && new_values@.len()
                == indices@.len() ==> (r matches Ok(res) && res@ == read_batch(
                old(self)@,
                indices@,
            )) && final(self)@ == write_batch(old(self)@, indices@, new_values@),
    {
        let ghost indices_view = indices@;
        let values_ref: &Vec<V> = &new_values;
        let supply_values = |refs: Vec<&V>| -> (w: Vec<V>)
            ensures
                w@ == values_ref@,
            {
                let mut w: Vec<V> = Vec::new();
                let mut k: usize = 0;
                while k < values_ref.len()
                    invariant
                        k <= values_ref@.len(),
                        w@ == values_ref@.take(k as int),
                    decreases values_ref.len() - k,
                {
                    w.push(values_ref[k]);
                    k = k + 1;
                    assert(w@ =~= values_ref@.take(k as int));
                }
                assert(values_ref@.take(values_ref@.len() as int) =~= values_ref@);
                w
            };
        let r = self.batched_access(indices, supply_values);
        proof {
            if first_out_of_bounds(indices_view, old(self)@.len()) is None {
                match &r {
                    Ok(res) => {
                        let (refs, w) = choose|refs: Vec<&V>, w: Vec<V>|
                            {
                                &&& refs_hold(refs@, res@)
                                &&& supply_values.ensures((refs,), w)
                                &&& w@.len() == indices_view.len()
                                &&& self@ == write_batch(old(self)@, indices_view, w@)
                            };
                        assert(res@ =~= read_batch(old(self)@, indices_view));
                    },
                    Err(e) => {
                        let (refs, w) = choose|refs: Vec<&V>, w: Vec<V>|
                            {
                                &&& refs_hold(refs@, read_batch(old(self)@, indices_view))
                                &&& supply_values.ensures((refs,), w)
                                &&& w@.len() != indices_view.len()
                                &&& e matches OramError::InvalidConfigurationError {
                                    parameter_name,
                                    parameter_value,
                                } && parameter_name@ == "callback output length"@
                                    && parameter_value@ == expected_got_text(
                                    indices_view.len(),
                                    w@.len(),
                                )
                            };
                    },
                }
            }
        }
        r
    }
}

} // verus!
