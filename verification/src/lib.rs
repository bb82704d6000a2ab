//! Verified core logic of a small RISC-V teaching kernel and its user programs.
pub mod ring_buffer;
pub mod prng;
pub mod tetris;
pub mod sbi;
pub mod devices;
pub mod boot;
pub mod user_alloc;
pub mod elf_load;
pub mod vm;
pub mod fd_table;
pub mod display;
pub mod tangram;
pub mod breakout;
pub mod virtio_blk;
pub mod snake;
pub mod pingpong;
pub mod shell;
pub mod kernel;
pub mod cursor;
pub mod stress;
pub mod input;
