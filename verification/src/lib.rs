//! Software 10BASE-T Ethernet and a NAPT router, as verified pure logic.

pub mod bench;
pub mod checksum;
pub mod conntrack;
pub mod console;
pub mod crc;
pub mod cycles;
pub mod dhcp_server;
pub mod eth_mac;
pub mod eth_rx;
pub mod eth_rx_dpll;
pub mod eth_tx;
pub mod forward;
pub mod frame;
pub mod gspi;
pub mod http;
pub mod line;
pub mod loopback;
pub mod manchester;
pub mod monitor;
pub mod multicore_riscv;
pub mod pico_reset;
pub mod reception;
pub mod routing;
pub mod samples;
pub mod schedule;
pub mod seams;
pub mod search;
pub mod status;
pub mod text;
pub mod time_driver;
pub mod tracking;
pub mod wan;
pub mod wire;
