use retriever::chunked::ChunkedReduce;
use retriever::rvec::RVec;
use retriever::sums::SumRules;

fn chunk_of(values: &[u64]) -> RVec<u64> {
    let mut c = RVec::new();
    for v in values {
        c.push(*v);
    }
    c
}

#[test]
fn chunked_sum_over_two_chunks() {
    let mut chunks: RVec<RVec<u64>> = RVec::new();
    chunks.push(chunk_of(&[1, 2, 3, 4]));
    chunks.push(chunk_of(&[5, 6, 7]));

    let mut cr = ChunkedReduce::new(&chunks, 4, SumRules);
    cr.update(&chunks);
    assert_eq!(cr.peek(), Some(&28));
}

#[test]
fn chunked_sum_reduction_cache_rebuild() {
    // eight elements split across two chunks, summed with group size 16;
    // after editing one element the next update's value is the fresh total
    let mut chunks: RVec<RVec<u64>> = RVec::new();
    chunks.push(chunk_of(&[0x101, 0x102, 0x103, 0x104]));
    chunks.push(chunk_of(&[0x105, 0x106, 0x107, 0x108]));

    let mut cr = ChunkedReduce::new(&chunks, 16, SumRules);
    cr.update(&chunks);
    let total: u64 = (0x101..=0x108u64).sum();
    assert_eq!(cr.peek(), Some(&total));

    // edit one element: a chunk is replaced wholesale, touching only its slot
    chunks.set(1, chunk_of(&[0x205, 0x106, 0x107, 0x108]));
    cr.update(&chunks);
    let total2 = total - 0x105 + 0x205;
    assert_eq!(cr.peek(), Some(&total2));
}

#[test]
fn chunked_sum_chunk_removal_and_addition() {
    let mut chunks: RVec<RVec<u64>> = RVec::new();
    chunks.push(chunk_of(&[10, 20]));
    chunks.push(chunk_of(&[30]));
    chunks.push(chunk_of(&[40, 50]));

    let mut cr = ChunkedReduce::new(&chunks, 2, SumRules);
    cr.update(&chunks);
    assert_eq!(cr.peek(), Some(&150));

    chunks.swap_remove(0);
    cr.update(&chunks);
    assert_eq!(cr.peek(), Some(&120));

    chunks.push(chunk_of(&[5]));
    cr.update(&chunks);
    assert_eq!(cr.peek(), Some(&125));

    while chunks.len() > 0 {
        chunks.swap_remove(0);
    }
    cr.update(&chunks);
    assert_eq!(cr.peek(), None);
}

#[test]
fn chunked_sum_reattach_rebuilds() {
    let mut chunks: RVec<RVec<u64>> = RVec::new();
    chunks.push(chunk_of(&[1, 2]));

    let mut cr = ChunkedReduce::new(&chunks, 2, SumRules);
    cr.update(&chunks);
    assert_eq!(cr.peek(), Some(&3));

    let mut others: RVec<RVec<u64>> = RVec::new();
    others.push(chunk_of(&[7]));
    others.push(chunk_of(&[8, 9]));

    cr.update(&others);
    assert_eq!(cr.peek(), Some(&24));
}
