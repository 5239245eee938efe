//! The formatted output sink.

use vstd::prelude::*;

verus! {

/// The byte that separates groups of output bytes.
pub const SPACE: u8 = 0x20;

/// The byte that ends a line of output bytes.
pub const NEWLINE: u8 = 0x0a;

/// The separators that follow the output byte whose count is `position`
/// (the first byte has count 1): a space where the count is a multiple of
/// the space interval, then a newline where it is a multiple of the wrap
/// interval. An interval of 0 switches its separator off.
pub open spec fn separators(position: int, space_interval: int, wrap_interval: int) -> Seq<u8> {
    let space = if space_interval > 0 && position % space_interval == 0 {
        seq![SPACE]
    } else {
        Seq::<u8>::empty()
    };
    let wrap = if wrap_interval > 0 && position % wrap_interval == 0 {
        seq![NEWLINE]
    } else {
        Seq::<u8>::empty()
    };
    space + wrap
}

/// What reaches the target when `data` is written through a sink that has
/// passed `written` bytes before: every byte of `data`, in order and
/// unchanged, each followed by its separators.
pub open spec fn formatted(
    data: Seq<u8>,
    written: int,
    space_interval: int,
    wrap_interval: int,
) -> Seq<u8>
    decreases data.len(),
{
    if data.len() == 0 {
        Seq::<u8>::empty()
    } else {
        formatted(data.drop_last(), written, space_interval, wrap_interval).push(data.last())
            + separators(written + data.len(), space_interval, wrap_interval)
    }
}

/// Writing in two pieces gives what writing at once gives: the separators
/// depend on the running count alone, not on how the bytes were handed over.
pub proof fn lemma_formatted_concat(
    first: Seq<u8>,
    second: Seq<u8>,
    written: int,
    space_interval: int,
    wrap_interval: int,
)
    ensures
        formatted(first + second, written, space_interval, wrap_interval) == formatted(
            first,
            written,
            space_interval,
            wrap_interval,
        ) + formatted(second, written + first.len(), space_interval, wrap_interval),
    decreases second.len(),
{
    if second.len() == 0 {
        assert(first + second =~= first);
        assert(formatted(second, written + first.len(), space_interval, wrap_interval)
            =~= Seq::<u8>::empty());
    } else {
        lemma_formatted_concat(first, second.drop_last(), written, space_interval, wrap_interval);
        assert((first + second).drop_last() =~= first + second.drop_last());
        assert((first + second).last() == second.last());
        assert(formatted(first + second, written, space_interval, wrap_interval) =~= formatted(
            first,
            written,
            space_interval,
            wrap_interval,
        ) + formatted(second, written + first.len(), space_interval, wrap_interval));
    }
}

/// The sink alters no byte and changes no order: each byte of the data
/// stands in the output as it is, behind everything that the bytes before
/// it gave and in front of nothing but its own separators and what the
/// bytes after it give.
pub proof fn lemma_formatted_around(
    data: Seq<u8>,
    i: int,
    written: int,
    space_interval: int,
    wrap_interval: int,
)
    requires
        0 <= i < data.len(),
    ensures
        formatted(data, written, space_interval, wrap_interval) == formatted(
            data.take(i),
            written,
            space_interval,
            wrap_interval,
        ).push(data[i]) + separators(written + i + 1, space_interval, wrap_interval) + formatted(
            data.skip(i + 1),
            written + i + 1,
            space_interval,
            wrap_interval,
        ),
{
    let upto = data.take(i + 1);
    assert(data =~= upto + data.skip(i + 1));
    lemma_formatted_concat(upto, data.skip(i + 1), written, space_interval, wrap_interval);
    assert(upto.drop_last() =~= data.take(i));
    assert(upto.last() == data[i]);
}

/// How many of the counts from `written + 1` to `written + taken` are
/// multiples of `interval`: how often a separator with that interval is
/// due while `taken` bytes pass. An interval of 0 is never due.
pub open spec fn due(written: int, taken: int, interval: int) -> int {
    if interval > 0 {
        (written + taken) / interval - written / interval
    } else {
        0
    }
}

/// One more byte makes a separator due once more where its count is a
/// multiple of the interval, and not otherwise.
proof fn lemma_due_next(written: int, taken: int, interval: int)
    requires
        0 <= written,
        0 <= taken,
    ensures
        due(written, taken + 1, interval) == due(written, taken, interval) + if interval > 0 && (
        written + taken + 1) % interval == 0 {
            1int
        } else {
            0int
        },
{
    if interval > 0 {
        let count = written + taken;
        assert((count + 1) / interval == count / interval + if (count + 1) % interval == 0 {
            1int
        } else {
            0int
        }) by (nonlinear_arith)
            requires
                0 <= count,
                0 < interval,
        ;
    }
}

/// The sink adds to the bytes that pass exactly the separators that are
/// due: one space for every multiple of the space interval among the
/// counts, and one newline for every multiple of the wrap interval.
pub proof fn lemma_formatted_len(
    data: Seq<u8>,
    written: int,
    space_interval: int,
    wrap_interval: int,
)
    requires
        0 <= written,
    ensures
        formatted(data, written, space_interval, wrap_interval).len() == data.len() + due(
            written,
            data.len() as int,
            space_interval,
        ) + due(written, data.len() as int, wrap_interval),
    decreases data.len(),
{
    if data.len() > 0 {
        let front = data.drop_last();
        lemma_formatted_len(front, written, space_interval, wrap_interval);
        lemma_due_next(written, front.len() as int, space_interval);
        lemma_due_next(written, front.len() as int, wrap_interval);
    }
}

/// With both intervals switched off the sink passes the bytes through as
/// they are.
pub proof fn lemma_formatted_plain(data: Seq<u8>, written: int)
    ensures
        formatted(data, written, 0, 0) == data,
    decreases data.len(),
{
    if data.len() > 0 {
        lemma_formatted_plain(data.drop_last(), written);
        assert(formatted(data, written, 0, 0) =~= data);
    }
}

/// An output sink that passes bytes on to its target and inserts a space
/// after every `space_interval` bytes and a newline after every
/// `wrap_interval` bytes, counted over all the bytes written through it.
pub struct FormattedWriter {
    target: Vec<u8>,
    space_interval: usize,
    wrap_interval: usize,
    current_position: usize,
}

impl FormattedWriter {
    /// Every byte that was counted stands in the target.
    #[verifier::type_invariant]
    spec fn counted_bytes_are_held(self) -> bool {
        self.current_position <= self.target.len()
    }

    /// What the target holds.
    pub closed spec fn output(self) -> Seq<u8> {
        self.target@
    }

    /// How many bytes were written through the sink since its creation.
    pub closed spec fn position(self) -> int {
        self.current_position as int
    }

    /// After how many bytes a space is inserted; 0 for never.
    pub closed spec fn spacing(self) -> int {
        self.space_interval as int
    }

    /// After how many bytes a newline is inserted; 0 for never.
    pub closed spec fn wrapping(self) -> int {
        self.wrap_interval as int
    }

    /// A sink in front of `target` that has not passed any byte yet.
    pub fn new(target: Vec<u8>, space_interval: usize, wrap_interval: usize) -> (writer: Self)
        ensures
            writer.output() == target@,
            writer.position() == 0,
            writer.spacing() == space_interval,
            writer.wrapping() == wrap_interval,
    {
        Self { target, space_interval, wrap_interval, current_position: 0 }
    }

    /// Passes `buf` on to the target, each byte followed by the separators
    /// that its count calls for, and returns how many bytes of `buf` were
    /// taken: all of them.
    pub fn write(&mut self, buf: &[u8]) -> (taken: usize)
        ensures
            taken == buf.len(),
            final(self).output() == old(self).output() + formatted(
                buf@,
                old(self).position(),
                old(self).spacing(),
                old(self).wrapping(),
            ),
            final(self).position() == old(self).position() + buf.len(),
            final(self).spacing() == old(self).spacing(),
            final(self).wrapping() == old(self).wrapping(),
    {
        proof {
            use_type_invariant(&*self);
        }
        // The target and the count leave the sink while they grow and are put
        // back together at the end.
        let mut taken = FormattedWriter::new(Vec::new(), self.space_interval, self.wrap_interval);
        std::mem::swap(self, &mut taken);
        let FormattedWriter { target, space_interval, wrap_interval, current_position } = taken;
        let mut target = target;
        let mut current_position = current_position;
        let ghost before = target@;
        let ghost start = current_position as int;
        let mut i: usize = 0;
        while i < buf.len()
            invariant
                i <= buf.len(),
                current_position == start + i,
                current_position <= target.len(),
                target@ == before + formatted(
                    buf@.take(i as int),
                    start,
                    space_interval as int,
                    wrap_interval as int,
                ),
            decreases buf.len() - i,
        {
            let byte = buf[i];
            target.push(byte);
            assert(current_position < target.len());
            current_position += 1;
            if space_interval > 0 && current_position % space_interval == 0 {
                target.push(SPACE);
            }
            if wrap_interval > 0 && current_position % wrap_interval == 0 {
                target.push(NEWLINE);
            }
            proof {
                let next = buf@.take(i + 1);
                assert(next.drop_last() =~= buf@.take(i as int));
                assert(next.last() == byte);
                assert(target@ =~= before + formatted(
                    next,
                    start,
                    space_interval as int,
                    wrap_interval as int,
                ));
            }
            i += 1;
        }
        assert(buf@.take(buf.len() as int) =~= buf@);
        *self = FormattedWriter { target, space_interval, wrap_interval, current_position };
        buf.len()
    }

    /// Gives the target back, with everything that was written to it.
    pub fn into_inner(self) -> (target: Vec<u8>)
        ensures
            target@ == self.output(),
    {
        self.target
    }
}

} // verus!
