use itertools::Itertools;
use vstd::prelude::*;

verus! {

/// Elements of `a` and `b` taken in turn, starting with `a`; once one runs
/// out, the rest of the other follows.
pub open spec fn interleaved<A>(a: Seq<A>, b: Seq<A>) -> Seq<A>
    decreases a.len() + b.len(),
{
    if a.len() == 0 {
        b
    } else {
        seq![a[0]] + interleaved(b, a.drop_first())
    }
}

/// Calls `Itertools::interleave` on copies of the elements of `a` and `b`.
/// Its documentation and source alternate the two iterators, starting with
/// the first, until both have run out: the contract states that sequence.
#[verifier::external_body]
fn interleave_copies<T: Copy>(a: &Vec<T>, b: &Vec<T>) -> (res: Vec<T>)
    ensures
        res@ == interleaved(a@, b@),
{
    a.iter().copied().interleave(b.iter().copied()).collect()
}

/// The sample stream of two stereo segments: the first segment's left and
/// right channels interleaved, then the second's.
pub fn stereo_stream<T: Copy>(left: &Vec<T>, right: &Vec<T>, left2: &Vec<T>, right2: &Vec<T>) -> (stream: Vec<T>)
    ensures
        stream@ == interleaved(left@, right@) + interleaved(left2@, right2@),
{
    let mut stream = interleave_copies(left, right);
    let mut second = interleave_copies(left2, right2);
    stream.append(&mut second);
    stream
}

/// Interleaving two channels of equal length gives frames of two samples:
/// sample `2 i` comes from the first channel and `2 i + 1` from the second.
pub proof fn law_interleaved_frames<A>(a: Seq<A>, b: Seq<A>)
    requires
        a.len() == b.len(),
    ensures
        interleaved(a, b).len() == 2 * a.len(),
        forall|i: int|
            0 <= i < a.len() ==> #[trigger] interleaved(a, b)[2 * i] == a[i] && interleaved(a, b)[2
                * i + 1] == b[i],
    decreases a.len(),
{
    if a.len() > 0 {
        let a2 = a.drop_first();
        let b2 = b.drop_first();
        law_interleaved_frames(a2, b2);
        let inner = interleaved(a2, b2);
        assert(interleaved(b, a2) == seq![b[0]] + interleaved(a2, b2)) by {
            assert(b.drop_first() == b2);
        }
        let whole = interleaved(a, b);
        assert(whole == seq![a[0]] + (seq![b[0]] + inner));
        assert forall|i: int| 0 <= i < a.len() implies #[trigger] whole[2 * i] == a[i] && whole[2 * i + 1] == b[i] by {
            if i > 0 {
                assert(whole[2 * i] == inner[2 * (i - 1)]);
                assert(whole[2 * i + 1] == inner[2 * (i - 1) + 1]);
            }
        }
    }
}

} // verus!
