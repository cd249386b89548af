use quantization::fast_scan::{pack, read_packed_code, scan_block, BLOCK_SIZE};
use quantization::lookup::LookupTable;

fn rows(n: usize, width: usize) -> Vec<Vec<u8>> {
    (0..n).map(|id| (0..width).map(|i| ((id * 5 + i * 3) % 16) as u8).collect()).collect()
}

#[test]
fn block_size_is_thirty_two() {
    assert_eq!(BLOCK_SIZE, 32);
}

#[test]
fn pack_interleaves_a_full_block() {
    let vectors: Vec<Vec<u8>> = (0..32).map(|id| vec![(id % 16) as u8]).collect();
    let packed = pack(1, &vectors).unwrap();
    let order = [0usize, 8, 1, 9, 2, 10, 3, 11, 4, 12, 5, 13, 6, 14, 7, 15];
    let expected: Vec<u8> =
        order.iter().map(|&s| vectors[s][0] | (vectors[s + 16][0] << 4)).collect();
    assert_eq!(packed, expected);
}

#[test]
fn pack_stores_column_after_column() {
    let vectors = rows(32, 3);
    let packed = pack(3, &vectors).unwrap();
    assert_eq!(packed.len(), 3 * 16);
    for i in 0..3 {
        assert_eq!(packed[i * 16], vectors[0][i] | (vectors[16][i] << 4));
        assert_eq!(packed[i * 16 + 1], vectors[8][i] | (vectors[24][i] << 4));
        assert_eq!(packed[i * 16 + 15], vectors[15][i] | (vectors[31][i] << 4));
    }
}

#[test]
fn pack_of_no_vectors_is_empty() {
    assert_eq!(pack(4, &Vec::new()).unwrap(), Vec::<u8>::new());
}

#[test]
fn pack_pads_with_the_last_vector() {
    for n in [1usize, 31, 32, 33, 64, 65] {
        let width = 5usize;
        let vectors = rows(n, width);
        let packed = pack(width as u32, &vectors).unwrap();
        let blocks = (n + 31) / 32;
        assert_eq!(packed.len(), blocks * width * 16);
        for slot in 0..blocks * 32 {
            let from = if slot < n { slot } else { n - 1 };
            for i in 0..width {
                let code = read_packed_code(
                    &packed,
                    width as u32,
                    (slot / 32) as u32,
                    (slot % 32) as u32,
                    i as u32,
                );
                assert_eq!(code, vectors[from][i]);
            }
        }
    }
}

#[test]
fn pack_refuses_malformed_vectors() {
    assert!(pack(2, &vec![vec![1u8, 2], vec![3u8]]).is_none());
    assert!(pack(2, &vec![vec![1u8, 16]]).is_none());
    assert!(pack(2, &vec![vec![1u8, 15]]).is_some());
}

#[test]
fn scan_block_sums_the_entries_of_every_slot() {
    let width = 7usize;
    let n = 40usize;
    let vectors = rows(n, width);
    let packed = pack(width as u32, &vectors).unwrap();
    let entries: Vec<u32> = (0..width * 16).map(|e| (e * e + 1) as u32).collect();
    let table = LookupTable::new(width as u32, 4, entries.clone()).unwrap();
    for block in 0..2u32 {
        let scores = scan_block(&table, &packed, block);
        assert_eq!(scores.len(), 32);
        for slot in 0..32usize {
            let id = block as usize * 32 + slot;
            let from = if id < n { id } else { n - 1 };
            let expected: u64 =
                (0..width).map(|i| entries[i * 16 + vectors[from][i] as usize] as u64).sum();
            assert_eq!(scores[slot], expected);
        }
    }
}
