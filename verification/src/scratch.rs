//! Marks for the vertices that a traversal has visited, kept from one traversal to the next.

use vstd::prelude::*;

verus! {

/// Whether a position is on a list.
spec fn listed(touched: Seq<usize>, index: int) -> bool {
    exists|j: int| 0 <= j < touched.len() && #[trigger] touched[j] == index
}

/// Whether a word is on a list.
spec fn word_listed(touched: Seq<(usize, usize)>, chunk: int, word: int) -> bool {
    exists|j: int|
        0 <= j < touched.len() && (#[trigger] touched[j]).0 == chunk && touched[j].1 == word
}

/// Whether every mark is on the list of marks to take back.
spec fn marks_listed(seen: Seq<bool>, touched: Seq<usize>) -> bool {
    &&& forall|i: int| 0 <= i < seen.len() && #[trigger] seen[i] ==> listed(touched, i)
    &&& forall|j: int| 0 <= j < touched.len() ==> #[trigger] touched[j] < seen.len()
}

/// Whether every word with a mark is on the list of words to clear.
spec fn words_listed(seen: Seq<Vec<u64>>, touched: Seq<(usize, usize)>) -> bool {
    &&& forall|c: int, w: int|
        0 <= c < seen.len() && 0 <= w < seen[c]@.len() && #[trigger] seen[c]@[w] != 0
            ==> word_listed(touched, c, w)
    &&& forall|j: int|
        0 <= j < touched.len() ==> (#[trigger] touched[j]).0 < seen.len() && touched[j].1
            < seen[touched[j].0 as int]@.len()
}

/// Whether a bit of a word is set.
spec fn bit(word: u64, index: int) -> bool {
    word & (1u64 << (index as u64)) != 0
}

proof fn lemma_bits(word: u64, set: u64)
    requires
        set < 64,
    ensures
        forall|other: u64| other < 64 ==> #[trigger] bit(word | (1u64 << set), other as int) == (
        other == set || bit(word, other as int)),
        word | (1u64 << set) != 0,
{
    assert forall|other: u64| other < 64 implies #[trigger] bit(word | (1u64 << set), other as int)
        == (other == set || bit(word, other as int)) by {
        assert((word | (1u64 << set)) & (1u64 << other) != 0 <==> (other == set || word & (1u64
            << other) != 0)) by (bit_vector)
            requires
                set < 64,
                other < 64,
        ;
    }
    assert(word | (1u64 << set) != 0) by (bit_vector)
        requires
            set < 64,
    ;
}

/// Marks for wires, nets and device components.
#[derive(Debug)]
pub struct TraversalScratch {
    wire_seen: Vec<bool>,
    net_seen: Vec<bool>,
    component_seen: Vec<Vec<u64>>,
    touched_wires: Vec<usize>,
    touched_nets: Vec<usize>,
    touched_component_words: Vec<(usize, usize)>,
}

/// Takes all marks back and makes room for more.
fn reset_marks(seen: &mut Vec<bool>, touched: &mut Vec<usize>, required_len: usize)
    requires
        marks_listed(old(seen)@, old(touched)@),
    ensures
        final(touched)@.len() == 0,
        final(seen)@.len() >= required_len,
        forall|i: int| 0 <= i < final(seen)@.len() ==> !#[trigger] final(seen)@[i],
{
    while touched.len() > 0
        invariant
            seen@.len() == old(seen)@.len(),
            forall|i: int|
                0 <= i < seen@.len() && #[trigger] seen@[i] ==> listed(touched@, i),
            forall|j: int| 0 <= j < touched@.len() ==> #[trigger] touched@[j] < seen@.len(),
        decreases touched@.len(),
    {
        let ghost before = touched@;
        let index: usize = touched.pop().unwrap();
        assert(before[before.len() - 1] < seen@.len());
        seen.set(index, false);
        assert forall|i: int| 0 <= i < seen@.len() && #[trigger] seen@[i] implies listed(
            touched@,
            i,
        ) by {
            assert(listed(before, i));
            let j = choose|j: int| 0 <= j < before.len() && #[trigger] before[j] == i;
            assert(touched@[j] == i);
        }
    }
    while seen.len() < required_len
        invariant
            forall|i: int| 0 <= i < seen@.len() ==> !#[trigger] seen@[i],
        decreases required_len - seen@.len(),
    {
        seen.push(false);
    }
}

impl TraversalScratch {
    /// Whether a wire, by position, is marked.
    pub closed spec fn wire_marked(self, index: int) -> bool {
        self.wire_seen@[index]
    }

    pub closed spec fn wire_room(self) -> int {
        self.wire_seen@.len() as int
    }

    /// Whether a net, by position, is marked.
    pub closed spec fn net_marked(self, index: int) -> bool {
        self.net_seen@[index]
    }

    pub closed spec fn net_room(self) -> int {
        self.net_seen@.len() as int
    }

    /// Whether a component, by chunk and position in it, is marked.
    pub closed spec fn component_marked(self, chunk: int, index: int) -> bool {
        bit(self.component_seen@[chunk]@[index / 64], index % 64)
    }

    /// Whether there is a mark for a component.
    pub closed spec fn component_room(self, chunk: int, index: int) -> bool {
        0 <= chunk < self.component_seen@.len() && 0 <= index && index / 64
            < self.component_seen@[chunk]@.len()
    }

    /// Whether `after` has the same marks for wires.
    pub open spec fn same_wire_marks(self, after: Self) -> bool {
        &&& after.wire_room() == self.wire_room()
        &&& forall|i: int| #[trigger] after.wire_marked(i) == self.wire_marked(i)
    }

    /// Whether `after` has the same marks for nets.
    pub open spec fn same_net_marks(self, after: Self) -> bool {
        &&& after.net_room() == self.net_room()
        &&& forall|i: int| #[trigger] after.net_marked(i) == self.net_marked(i)
    }

    /// Whether `after` has the same marks for components.
    pub open spec fn same_component_marks(self, after: Self) -> bool {
        &&& forall|c: int, i: int| #[trigger]
            after.component_room(c, i) == self.component_room(c, i)
        &&& forall|c: int, i: int| #[trigger]
            after.component_marked(c, i) == self.component_marked(c, i)
    }

    /// Every mark is listed, so that it can be taken back.
    pub closed spec fn wf(self) -> bool {
        &&& marks_listed(self.wire_seen@, self.touched_wires@)
        &&& marks_listed(self.net_seen@, self.touched_nets@)
        &&& words_listed(self.component_seen@, self.touched_component_words@)
    }

    /// No marks and no room for any.
    pub fn new() -> (result: Self)
        ensures
            result.wf(),
            result.wire_room() == 0,
            result.net_room() == 0,
            forall|chunk: int, index: int| !#[trigger] result.component_room(chunk, index),
    {
        TraversalScratch {
            wire_seen: Vec::new(),
            net_seen: Vec::new(),
            component_seen: Vec::new(),
            touched_wires: Vec::new(),
            touched_nets: Vec::new(),
            touched_component_words: Vec::new(),
        }
    }

    /// Takes the marks of wires back and makes room for `wire_slots` of them.
    pub fn begin_wire_traversal(&mut self, wire_slots: usize)
        requires
            old(self).wf(),
        ensures
            final(self).wf(),
            final(self).wire_room() >= wire_slots,
            forall|i: int| 0 <= i < final(self).wire_room() ==> !#[trigger] final(self).wire_marked(i),
            old(self).same_net_marks(*final(self)),
            old(self).same_component_marks(*final(self)),
    {
        reset_marks(&mut self.wire_seen, &mut self.touched_wires, wire_slots);
        assert forall|i: int| 0 <= i < self.wire_room() implies !#[trigger] self.wire_marked(i) by {
            assert(!self.wire_seen@[i]);
        }
    }

    /// Takes the marks of nets and components back and makes room for them: `component_slots` holds
    /// the number of components of each chunk.
    pub fn begin_island_traversal(&mut self, net_slots: usize, component_slots: &[usize])
        requires
            old(self).wf(),
        ensures
            final(self).wf(),
            final(self).net_room() >= net_slots,
            forall|i: int| 0 <= i < final(self).net_room() ==> !#[trigger] final(self).net_marked(i),
            forall|c: int, i: int|
                0 <= c < component_slots@.len() && 0 <= i < component_slots@[c]
                    ==> #[trigger] final(self).component_room(c, i),
            forall|c: int, i: int|
                0 <= c < component_slots@.len() && 0 <= i < component_slots@[c]
                    ==> !#[trigger] final(self).component_marked(c, i),
            old(self).same_wire_marks(*final(self)),
    {
        reset_marks(&mut self.net_seen, &mut self.touched_nets, net_slots);
        while self.touched_component_words.len() > 0
            invariant
                marks_listed(self.wire_seen@, self.touched_wires@),
                self.wire_seen == old(self).wire_seen,
                marks_listed(self.net_seen@, self.touched_nets@),
                words_listed(self.component_seen@, self.touched_component_words@),
                self.net_room() >= net_slots,
                forall|i: int| 0 <= i < self.net_seen@.len() ==> !#[trigger] self.net_seen@[i],
            decreases self.touched_component_words@.len(),
        {
            let ghost touched = self.touched_component_words@;
            let ghost seen = self.component_seen@;
            let (chunk, word) = self.touched_component_words.pop().unwrap();
            assert(touched[touched.len() - 1] == (chunk, word));
            self.component_seen[chunk].set(word, 0);
            assert forall|c: int, w: int|
                0 <= c < self.component_seen@.len() && 0 <= w < self.component_seen@[c]@.len()
                    && #[trigger] self.component_seen@[c]@[w] != 0 implies word_listed(
                self.touched_component_words@,
                c,
                w,
            ) by {
                assert(seen[c]@[w] != 0);
                assert(word_listed(touched, c, w));
                let j = choose|j: int|
                    0 <= j < touched.len() && (#[trigger] touched[j]).0 == c && touched[j].1 == w;
                assert(self.touched_component_words@[j] == touched[j]);
            }
        }
        assert forall|c: int, w: int|
            0 <= c < self.component_seen@.len() && 0 <= w
                < self.component_seen@[c]@.len() implies #[trigger] self.component_seen@[c]@[w]
            == 0 by {}
        let mut chunk: usize = 0;
        while chunk < component_slots.len()
            invariant
                chunk <= component_slots@.len(),
                self.touched_component_words@.len() == 0,
                marks_listed(self.wire_seen@, self.touched_wires@),
                self.wire_seen == old(self).wire_seen,
                marks_listed(self.net_seen@, self.touched_nets@),
                self.net_room() >= net_slots,
                forall|i: int| 0 <= i < self.net_seen@.len() ==> !#[trigger] self.net_seen@[i],
                forall|c: int, w: int|
                    0 <= c < self.component_seen@.len() && 0 <= w < self.component_seen@[c]@.len()
                        ==> #[trigger] self.component_seen@[c]@[w] == 0,
                chunk <= self.component_seen@.len(),
                forall|c: int|
                    0 <= c < chunk ==> component_slots@[c] <= 64 * (
                    #[trigger] self.component_seen@[c])@.len(),
            decreases component_slots@.len() - chunk,
        {
            if self.component_seen.len() <= chunk {
                self.component_seen.push(Vec::new());
            }
            let slots: usize = component_slots[chunk];
            let required: usize = slots / 64 + if slots % 64 != 0 {
                1
            } else {
                0
            };
            let ghost before = self.component_seen@;
            while self.component_seen[chunk].len() < required
                invariant
                    chunk < self.component_seen@.len() == before.len(),
                    self.touched_component_words@.len() == 0,
                    marks_listed(self.wire_seen@, self.touched_wires@),
                self.wire_seen == old(self).wire_seen,
                    marks_listed(self.net_seen@, self.touched_nets@),
                    self.net_room() >= net_slots,
                    forall|i: int| 0 <= i < self.net_seen@.len() ==> !#[trigger] self.net_seen@[i],
                    forall|c: int, w: int|
                        0 <= c < self.component_seen@.len() && 0 <= w
                            < self.component_seen@[c]@.len()
                            ==> #[trigger] self.component_seen@[c]@[w] == 0,
                    forall|c: int|
                        0 <= c < before.len() && c != chunk ==> #[trigger] self.component_seen@[c]
                            == before[c],
                decreases required - self.component_seen@[chunk as int]@.len(),
            {
                self.component_seen[chunk].push(0);
            }
            assert forall|c: int| 0 <= c < chunk + 1 implies component_slots@[c] <= 64 * (
            #[trigger] self.component_seen@[c])@.len() by {
                if c < chunk {
                    assert(self.component_seen@[c] == before[c]);
                }
            }
            chunk = chunk + 1;
        }
        assert forall|i: int| 0 <= i < self.net_room() implies !#[trigger] self.net_marked(i) by {
            assert(!self.net_seen@[i]);
        }
        assert forall|c: int, i: int|
            0 <= c < component_slots@.len() && 0 <= i
                < component_slots@[c] implies #[trigger] self.component_room(c, i) by {
            assert(self.component_seen@[c]@.len() * 64 > i);
        }
        assert forall|c: int, i: int|
            0 <= c < component_slots@.len() && 0 <= i
                < component_slots@[c] implies !#[trigger] self.component_marked(c, i) by {
            assert(self.component_room(c, i));
            assert(self.component_seen@[c]@[i / 64] == 0);
            let k = (i % 64) as u64;
            assert(0u64 & (1u64 << k) == 0) by (bit_vector);
        }
    }

    /// Marks a component; false if it was marked.
    pub fn visit_component(&mut self, chunk_index: usize, index: usize) -> (result: bool)
        requires
            old(self).wf(),
            old(self).component_room(chunk_index as int, index as int),
        ensures
            final(self).wf(),
            result == !old(self).component_marked(chunk_index as int, index as int),
            old(self).same_wire_marks(*final(self)),
            old(self).same_net_marks(*final(self)),
            forall|c: int, i: int| #[trigger]
                final(self).component_room(c, i) == old(self).component_room(c, i),
            forall|c: int, i: int|
                0 <= c && 0 <= i && old(self).component_room(c, i)
                    ==> #[trigger] final(self).component_marked(c, i) == (old(
                    self,
                ).component_marked(c, i) || (c == chunk_index && i == index)),
    {
        let word_index: usize = index / 64;
        let shift: u64 = (index % 64) as u64;
        let mask: u64 = 1u64 << shift;
        let word: u64 = self.component_seen[chunk_index][word_index];
        if word & mask != 0 {
            return false;
        }
        if word == 0 {
            self.touched_component_words.push((chunk_index, word_index));
        }
        let ghost touched = self.touched_component_words@;
        self.component_seen[chunk_index].set(word_index, word | mask);
        proof {
            lemma_bits(word, shift);
            assert forall|c: int, i: int|
                0 <= c && 0 <= i && old(self).component_room(
                    c,
                    i,
                ) implies #[trigger] self.component_marked(c, i) == (old(self).component_marked(
                c,
                i,
            ) || (c == chunk_index && i == index)) by {
                if c == chunk_index && i / 64 == word_index {
                    let k = (i % 64) as u64;
                    assert(bit(word | (1u64 << shift), k as int) == (k == shift || bit(
                        word,
                        k as int,
                    )));
                }
            }
            assert forall|c: int, w: int|
                0 <= c < self.component_seen@.len() && 0 <= w < self.component_seen@[c]@.len()
                    && #[trigger] self.component_seen@[c]@[w] != 0 implies word_listed(
                touched,
                c,
                w,
            ) by {
                let before = old(self).touched_component_words@;
                if old(self).component_seen@[c]@[w] != 0 {
                    assert(word_listed(before, c, w));
                    let j = choose|j: int|
                        0 <= j < before.len() && (#[trigger] before[j]).0 == c && before[j].1 == w;
                    assert(touched[j] == before[j]);
                } else {
                    assert(c == chunk_index && w == word_index);
                    assert(touched[before.len() as int] == (chunk_index, word_index));
                }
            }
        }
        true
    }

    /// Marks a wire; false if it was marked.
    pub fn visit_wire(&mut self, index: usize) -> (result: bool)
        requires
            old(self).wf(),
            index < old(self).wire_room(),
        ensures
            final(self).wf(),
            result == !old(self).wire_marked(index as int),
            final(self).wire_room() == old(self).wire_room(),
            forall|i: int|
                0 <= i < old(self).wire_room() ==> #[trigger] final(self).wire_marked(i) == (old(
                    self,
                ).wire_marked(i) || i == index),
            old(self).same_net_marks(*final(self)),
            old(self).same_component_marks(*final(self)),
    {
        if self.wire_seen[index] {
            return false;
        }
        self.wire_seen.set(index, true);
        self.touched_wires.push(index);
        proof {
            lemma_mark_listed(
                old(self).wire_seen@,
                old(self).touched_wires@,
                index,
            );
        }
        true
    }

    /// Marks a net; false if it was marked.
    pub fn visit_net(&mut self, index: usize) -> (result: bool)
        requires
            old(self).wf(),
            index < old(self).net_room(),
        ensures
            final(self).wf(),
            result == !old(self).net_marked(index as int),
            final(self).net_room() == old(self).net_room(),
            forall|i: int|
                0 <= i < old(self).net_room() ==> #[trigger] final(self).net_marked(i) == (old(
                    self,
                ).net_marked(i) || i == index),
            old(self).same_wire_marks(*final(self)),
            old(self).same_component_marks(*final(self)),
    {
        if self.net_seen[index] {
            return false;
        }
        self.net_seen.set(index, true);
        self.touched_nets.push(index);
        proof {
            lemma_mark_listed(old(self).net_seen@, old(self).touched_nets@, index);
        }
        true
    }
}

proof fn lemma_mark_listed(seen: Seq<bool>, touched: Seq<usize>, index: usize)
    requires
        marks_listed(seen, touched),
        index < seen.len(),
    ensures
        marks_listed(seen.update(index as int, true), touched.push(index)),
{
    let more = touched.push(index);
    let marked = seen.update(index as int, true);
    assert forall|i: int| 0 <= i < marked.len() && #[trigger] marked[i] implies listed(more, i) by {
        if i == index {
            assert(more[touched.len() as int] == index);
        } else {
            assert(seen[i]);
            assert(listed(touched, i));
            let j = choose|j: int| 0 <= j < touched.len() && #[trigger] touched[j] == i;
            assert(more[j] == i);
        }
    }
}

} // verus!
