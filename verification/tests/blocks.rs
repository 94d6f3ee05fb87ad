use memmgr::blocks::ToBlocks;
use memmgr::linux_def::{Block, MemoryDef};
use memmgr::stackvec::StackVec;

#[test]
fn TestToBlocks() {
    let mut bs = StackVec::New(100);

    let arr = [
        MemoryDef::PAGE_SIZE,
        2 * MemoryDef::PAGE_SIZE,
        3 * MemoryDef::PAGE_SIZE,
        5 * MemoryDef::PAGE_SIZE,
    ];
    ToBlocks(&mut bs, &arr);

    let slice = bs.Slice();
    assert_eq!(
        slice[0],
        Block::NewFromAddr(MemoryDef::PAGE_SIZE, 3 * MemoryDef::PAGE_SIZE as usize)
    );
    assert_eq!(
        slice[1],
        Block::NewFromAddr(5 * MemoryDef::PAGE_SIZE, MemoryDef::PAGE_SIZE as usize)
    );
}
