use vstd::prelude::*;
use crate::engine::zobrist::lcg_key;

verus! {

// The generator's values, ten steps at a time from a known value; `keys.rs`
// compares its written table with them.
pub(crate) proof fn lemma_steps_0()
    requires
        lcg_key(0) == 0x123456789abcdef0u64,
    ensures
        lcg_key(1) == 0x8ddb1a43e77c4031u64,
        lcg_key(2) == 0x5950e8c33d34979eu64,
        lcg_key(3) == 0x723f4114006c08c7u64,
        lcg_key(4) == 0x817de530db2b43fcu64,
        lcg_key(5) == 0x047811fa5f00f74du64,
        lcg_key(6) == 0x7b31cfa7f9abab8au64,
        lcg_key(7) == 0x51ffcc7cdc989d43u64,
        lcg_key(8) == 0x6d7d17ace8d6e1c8u64,
        lcg_key(9) == 0x57bf9128512fe829u64,
        lcg_key(10) == 0x65ece16055752636u64,
{
    assert((0x123456789abcdef0nat * 6364136223846793005nat + 1) % 0x1_0000_0000_0000_0000nat == 0x8ddb1a43e77c4031nat) by (nonlinear_arith);
    assert(lcg_key(1) == 0x8ddb1a43e77c4031u64);
    assert((0x8ddb1a43e77c4031nat * 6364136223846793005nat + 1) % 0x1_0000_0000_0000_0000nat == 0x5950e8c33d34979enat) by (nonlinear_arith);
    assert(lcg_key(2) == 0x5950e8c33d34979eu64);
    assert((0x5950e8c33d34979enat * 6364136223846793005nat + 1) % 0x1_0000_0000_0000_0000nat == 0x723f4114006c08c7nat) by (nonlinear_arith);
    assert(lcg_key(3) == 0x723f4114006c08c7u64);
    assert((0x723f4114006c08c7nat * 6364136223846793005nat + 1) % 0x1_0000_0000_0000_0000nat == 0x817de530db2b43fcnat) by (nonlinear_arith);
    assert(lcg_key(4) == 0x817de530db2b43fcu64);
    assert((0x817de530db2b43fcnat * 6364136223846793005nat + 1) % 0x1_0000_0000_0000_0000nat == 0x047811fa5f00f74dnat) by (nonlinear_arith);
    assert(lcg_key(5) == 0x047811fa5f00f74du64);
    assert((0x047811fa5f00f74dnat * 6364136223846793005nat + 1) % 0x1_0000_0000_0000_0000nat == 0x7b31cfa7f9abab8anat) by (nonlinear_arith);
    assert(lcg_key(6) == 0x7b31cfa7f9abab8au64);
    assert((0x7b31cfa7f9abab8anat * 6364136223846793005nat + 1) % 0x1_0000_0000_0000_0000nat == 0x51ffcc7cdc989d43nat) by (nonlinear_arith);
    assert(lcg_key(7) == 0x51ffcc7cdc989d43u64);
    assert((0x51ffcc7cdc989d43nat * 6364136223846793005nat + 1) % 0x1_0000_0000_0000_0000nat == 0x6d7d17ace8d6e1c8nat) by (nonlinear_arith);
    assert(lcg_key(8) == 0x6d7d17ace8d6e1c8u64);
    assert((0x6d7d17ace8d6e1c8nat * 6364136223846793005nat + 1) % 0x1_0000_0000_0000_0000nat == 0x57bf9128512fe829nat) by (nonlinear_arith);
    assert(lcg_key(9) == 0x57bf9128512fe829u64);
    assert((0x57bf9128512fe829nat * 6364136223846793005nat + 1) % 0x1_0000_0000_0000_0000nat == 0x65ece16055752636nat) by (nonlinear_arith);
    assert(lcg_key(10) == 0x65ece16055752636u64);
}

pub(crate) proof fn lemma_steps_1()
    requires
        lcg_key(10) == 0x65ece16055752636u64,
    ensures
        lcg_key(11) == 0x89fc1c5968fa817fu64,
        lcg_key(12) == 0x373a9e5dcd31c454u64,
        lcg_key(13) == 0x4ed5264cf7092ec5u64,
        lcg_key(14) == 0x6f2068f0af79f3a2u64,
        lcg_key(15) == 0xffd86b253d97317bu64,
        lcg_key(16) == 0x9fcff96925b6b7a0u64,
        lcg_key(17) == 0x8771fa2da656a721u64,
        lcg_key(18) == 0x9210fe654c59bfceu64,
        lcg_key(19) == 0xb5961d12bcd3e937u64,
        lcg_key(20) == 0xbdb5a33662f547acu64,
{
    assert((0x65ece16055752636nat * 6364136223846793005nat + 1) % 0x1_0000_0000_0000_0000nat == 0x89fc1c5968fa817fnat) by (nonlinear_arith);
    assert(lcg_key(11) == 0x89fc1c5968fa817fu64);
    assert((0x89fc1c5968fa817fnat * 6364136223846793005nat + 1) % 0x1_0000_0000_0000_0000nat == 0x373a9e5dcd31c454nat) by (nonlinear_arith);
    assert(lcg_key(12) == 0x373a9e5dcd31c454u64);
    assert((0x373a9e5dcd31c454nat * 6364136223846793005nat + 1) % 0x1_0000_0000_0000_0000nat == 0x4ed5264cf7092ec5nat) by (nonlinear_arith);
    assert(lcg_key(13) == 0x4ed5264cf7092ec5u64);
    assert((0x4ed5264cf7092ec5nat * 6364136223846793005nat + 1) % 0x1_0000_0000_0000_0000nat == 0x6f2068f0af79f3a2nat) by (nonlinear_arith);
    assert(lcg_key(14) == 0x6f2068f0af79f3a2u64);
    assert((0x6f2068f0af79f3a2nat * 6364136223846793005nat + 1) % 0x1_0000_0000_0000_0000nat == 0xffd86b253d97317bnat) by (nonlinear_arith);
    assert(lcg_key(15) == 0xffd86b253d97317bu64);
    assert((0xffd86b253d97317bnat * 6364136223846793005nat + 1) % 0x1_0000_0000_0000_0000nat == 0x9fcff96925b6b7a0nat) by (nonlinear_arith);
    assert(lcg_key(16) == 0x9fcff96925b6b7a0u64);
    assert((0x9fcff96925b6b7a0nat * 6364136223846793005nat + 1) % 0x1_0000_0000_0000_0000nat == 0x8771fa2da656a721nat) by (nonlinear_arith);
    assert(lcg_key(17) == 0x8771fa2da656a721u64);
    assert((0x8771fa2da656a721nat * 6364136223846793005nat + 1) % 0x1_0000_0000_0000_0000nat == 0x9210fe654c59bfcenat) by (nonlinear_arith);
    assert(lcg_key(18) == 0x9210fe654c59bfceu64);
    assert((0x9210fe654c59bfcenat * 6364136223846793005nat + 1) % 0x1_0000_0000_0000_0000nat == 0xb5961d12bcd3e937nat) by (nonlinear_arith);
    assert(lcg_key(19) == 0xb5961d12bcd3e937u64);
    assert((0xb5961d12bcd3e937nat * 6364136223846793005nat + 1) % 0x1_0000_0000_0000_0000nat == 0xbdb5a33662f547acnat) by (nonlinear_arith);
    assert(lcg_key(20) == 0xbdb5a33662f547acu64);
}

pub(crate) proof fn lemma_steps_2()
    requires
        lcg_key(20) == 0xbdb5a33662f547acu64,
    ensures
        lcg_key(21) == 0x93c79eecdac7ed3du64,
        lcg_key(22) == 0xde4cf8afd456f6bau64,
        lcg_key(23) == 0x6b93ffce49f1a4b3u64,
        lcg_key(24) == 0x6b07a3f2e05dc078u64,
        lcg_key(25) == 0x138aefcc98ce5d19u64,
        lcg_key(26) == 0x45c00be9d802c466u64,
        lcg_key(27) == 0xb3da641cef491fefu64,
        lcg_key(28) == 0xd5d857d8e0cd2e04u64,
        lcg_key(29) == 0x71c4b06e463912b5u64,
        lcg_key(30) == 0xe14356cf47a914d2u64,
{
    assert((0xbdb5a33662f547acnat * 6364136223846793005nat + 1) % 0x1_0000_0000_0000_0000nat == 0x93c79eecdac7ed3dnat) by (nonlinear_arith);
    assert(lcg_key(21) == 0x93c79eecdac7ed3du64);
    assert((0x93c79eecdac7ed3dnat * 6364136223846793005nat + 1) % 0x1_0000_0000_0000_0000nat == 0xde4cf8afd456f6banat) by (nonlinear_arith);
    assert(lcg_key(22) == 0xde4cf8afd456f6bau64);
    assert((0xde4cf8afd456f6banat * 6364136223846793005nat + 1) % 0x1_0000_0000_0000_0000nat == 0x6b93ffce49f1a4b3nat) by (nonlinear_arith);
    assert(lcg_key(23) == 0x6b93ffce49f1a4b3u64);
    assert((0x6b93ffce49f1a4b3nat * 6364136223846793005nat + 1) % 0x1_0000_0000_0000_0000nat == 0x6b07a3f2e05dc078nat) by (nonlinear_arith);
    assert(lcg_key(24) == 0x6b07a3f2e05dc078u64);
    assert((0x6b07a3f2e05dc078nat * 6364136223846793005nat + 1) % 0x1_0000_0000_0000_0000nat == 0x138aefcc98ce5d19nat) by (nonlinear_arith);
    assert(lcg_key(25) == 0x138aefcc98ce5d19u64);
    assert((0x138aefcc98ce5d19nat * 6364136223846793005nat + 1) % 0x1_0000_0000_0000_0000nat == 0x45c00be9d802c466nat) by (nonlinear_arith);
    assert(lcg_key(26) == 0x45c00be9d802c466u64);
    assert((0x45c00be9d802c466nat * 6364136223846793005nat + 1) % 0x1_0000_0000_0000_0000nat == 0xb3da641cef491fefnat) by (nonlinear_arith);
    assert(lcg_key(27) == 0xb3da641cef491fefu64);
    assert((0xb3da641cef491fefnat * 6364136223846793005nat + 1) % 0x1_0000_0000_0000_0000nat == 0xd5d857d8e0cd2e04nat) by (nonlinear_arith);
    assert(lcg_key(28) == 0xd5d857d8e0cd2e04u64);
    assert((0xd5d857d8e0cd2e04nat * 6364136223846793005nat + 1) % 0x1_0000_0000_0000_0000nat == 0x71c4b06e463912b5nat) by (nonlinear_arith);
    assert(lcg_key(29) == 0x71c4b06e463912b5u64);
    assert((0x71c4b06e463912b5nat * 6364136223846793005nat + 1) % 0x1_0000_0000_0000_0000nat == 0xe14356cf47a914d2nat) by (nonlinear_arith);
    assert(lcg_key(30) == 0xe14356cf47a914d2u64);
}

pub(crate) proof fn lemma_steps_3()
    requires
        lcg_key(30) == 0xe14356cf47a914d2u64,
    ensures
        lcg_key(31) == 0x97d4cf7df046d6ebu64,
        lcg_key(32) == 0xf4a097ae3bd95c50u64,
        lcg_key(33) == 0x1428f04bd490ea11u64,
        lcg_key(34) == 0x9d97f29a897c93feu64,
        lcg_key(35) == 0x35256c76832705a7u64,
        lcg_key(36) == 0xa962f1a447dcd75cu64,
        lcg_key(37) == 0x2969e82bd9347f2du64,
        lcg_key(38) == 0xe47ad0ae9a82adeau64,
        lcg_key(39) == 0x9061a12aae71a823u64,
        lcg_key(40) == 0x830db1434cc2eb28u64,
{
    assert((0xe14356cf47a914d2nat * 6364136223846793005nat + 1) % 0x1_0000_0000_0000_0000nat == 0x97d4cf7df046d6ebnat) by (nonlinear_arith);
    assert(lcg_key(31) == 0x97d4cf7df046d6ebu64);
    assert((0x97d4cf7df046d6ebnat * 6364136223846793005nat + 1) % 0x1_0000_0000_0000_0000nat == 0xf4a097ae3bd95c50nat) by (nonlinear_arith);
    assert(lcg_key(32) == 0xf4a097ae3bd95c50u64);
    assert((0xf4a097ae3bd95c50nat * 6364136223846793005nat + 1) % 0x1_0000_0000_0000_0000nat == 0x1428f04bd490ea11nat) by (nonlinear_arith);
    assert(lcg_key(33) == 0x1428f04bd490ea11u64);
    assert((0x1428f04bd490ea11nat * 6364136223846793005nat + 1) % 0x1_0000_0000_0000_0000nat == 0x9d97f29a897c93fenat) by (nonlinear_arith);
    assert(lcg_key(34) == 0x9d97f29a897c93feu64);
    assert((0x9d97f29a897c93fenat * 6364136223846793005nat + 1) % 0x1_0000_0000_0000_0000nat == 0x35256c76832705a7nat) by (nonlinear_arith);
    assert(lcg_key(35) == 0x35256c76832705a7u64);
    assert((0x35256c76832705a7nat * 6364136223846793005nat + 1) % 0x1_0000_0000_0000_0000nat == 0xa962f1a447dcd75cnat) by (nonlinear_arith);
    assert(lcg_key(36) == 0xa962f1a447dcd75cu64);
    assert((0xa962f1a447dcd75cnat * 6364136223846793005nat + 1) % 0x1_0000_0000_0000_0000nat == 0x2969e82bd9347f2dnat) by (nonlinear_arith);
    assert(lcg_key(37) == 0x2969e82bd9347f2du64);
    assert((0x2969e82bd9347f2dnat * 6364136223846793005nat + 1) % 0x1_0000_0000_0000_0000nat == 0xe47ad0ae9a82adeanat) by (nonlinear_arith);
    assert(lcg_key(38) == 0xe47ad0ae9a82adeau64);
    assert((0xe47ad0ae9a82adeanat * 6364136223846793005nat + 1) % 0x1_0000_0000_0000_0000nat == 0x9061a12aae71a823nat) by (nonlinear_arith);
    assert(lcg_key(39) == 0x9061a12aae71a823u64);
    assert((0x9061a12aae71a823nat * 6364136223846793005nat + 1) % 0x1_0000_0000_0000_0000nat == 0x830db1434cc2eb28nat) by (nonlinear_arith);
    assert(lcg_key(40) == 0x830db1434cc2eb28u64);
}

pub(crate) proof fn lemma_steps_4()
    requires
        lcg_key(40) == 0x830db1434cc2eb28u64,
    ensures
        lcg_key(41) == 0x695b8d33ef342e09u64,
        lcg_key(42) == 0xfb47f86a663f8e96u64,
        lcg_key(43) == 0x46b4dd1e06367a5fu64,
        lcg_key(44) == 0x28139c188b93a3b4u64,
        lcg_key(45) == 0xd68b05ba7eee12a5u64,
        lcg_key(46) == 0x39559fdb41222202u64,
        lcg_key(47) == 0x1e59cc2ac508f85bu64,
        lcg_key(48) == 0x758ad736a6bfcd00u64,
        lcg_key(49) == 0x0296f8d2c76a0901u64,
        lcg_key(50) == 0x0f65628b31b0142eu64,
{
    assert((0x830db1434cc2eb28nat * 6364136223846793005nat + 1) % 0x1_0000_0000_0000_0000nat == 0x695b8d33ef342e09nat) by (nonlinear_arith);
    assert(lcg_key(41) == 0x695b8d33ef342e09u64);
    assert((0x695b8d33ef342e09nat * 6364136223846793005nat + 1) % 0x1_0000_0000_0000_0000nat == 0xfb47f86a663f8e96nat) by (nonlinear_arith);
    assert(lcg_key(42) == 0xfb47f86a663f8e96u64);
    assert((0xfb47f86a663f8e96nat * 6364136223846793005nat + 1) % 0x1_0000_0000_0000_0000nat == 0x46b4dd1e06367a5fnat) by (nonlinear_arith);
    assert(lcg_key(43) == 0x46b4dd1e06367a5fu64);
    assert((0x46b4dd1e06367a5fnat * 6364136223846793005nat + 1) % 0x1_0000_0000_0000_0000nat == 0x28139c188b93a3b4nat) by (nonlinear_arith);
    assert(lcg_key(44) == 0x28139c188b93a3b4u64);
    assert((0x28139c188b93a3b4nat * 6364136223846793005nat + 1) % 0x1_0000_0000_0000_0000nat == 0xd68b05ba7eee12a5nat) by (nonlinear_arith);
    assert(lcg_key(45) == 0xd68b05ba7eee12a5u64);
    assert((0xd68b05ba7eee12a5nat * 6364136223846793005nat + 1) % 0x1_0000_0000_0000_0000nat == 0x39559fdb41222202nat) by (nonlinear_arith);
    assert(lcg_key(46) == 0x39559fdb41222202u64);
    assert((0x39559fdb41222202nat * 6364136223846793005nat + 1) % 0x1_0000_0000_0000_0000nat == 0x1e59cc2ac508f85bnat) by (nonlinear_arith);
    assert(lcg_key(47) == 0x1e59cc2ac508f85bu64);
    assert((0x1e59cc2ac508f85bnat * 6364136223846793005nat + 1) % 0x1_0000_0000_0000_0000nat == 0x758ad736a6bfcd00nat) by (nonlinear_arith);
    assert(lcg_key(48) == 0x758ad736a6bfcd00u64);
    assert((0x758ad736a6bfcd00nat * 6364136223846793005nat + 1) % 0x1_0000_0000_0000_0000nat == 0x0296f8d2c76a0901nat) by (nonlinear_arith);
    assert(lcg_key(49) == 0x0296f8d2c76a0901u64);
    assert((0x0296f8d2c76a0901nat * 6364136223846793005nat + 1) % 0x1_0000_0000_0000_0000nat == 0x0f65628b31b0142enat) by (nonlinear_arith);
    assert(lcg_key(50) == 0x0f65628b31b0142eu64);
}

pub(crate) proof fn lemma_steps_5()
    requires
        lcg_key(50) == 0x0f65628b31b0142eu64,
    ensures
        lcg_key(51) == 0x7036f5ad7cbc5e17u64,
        lcg_key(52) == 0xa09d3bfcf72cf30cu64,
        lcg_key(53) == 0x915d6883c575ad1du64,
        lcg_key(54) == 0x7471ad1a7471d11au64,
        lcg_key(55) == 0x845ba74f5adfa793u64,
        lcg_key(56) == 0x5ed2a1cb1a0161d8u64,
        lcg_key(57) == 0xb910d16c54805af9u64,
        lcg_key(58) == 0x7f0b2972669e84c6u64,
        lcg_key(59) == 0x27a2e280bcf990cfu64,
        lcg_key(60) == 0xe26a8302c3302564u64,
{
    assert((0x0f65628b31b0142enat * 6364136223846793005nat + 1) % 0x1_0000_0000_0000_0000nat == 0x7036f5ad7cbc5e17nat) by (nonlinear_arith);
    assert(lcg_key(51) == 0x7036f5ad7cbc5e17u64);
    assert((0x7036f5ad7cbc5e17nat * 6364136223846793005nat + 1) % 0x1_0000_0000_0000_0000nat == 0xa09d3bfcf72cf30cnat) by (nonlinear_arith);
    assert(lcg_key(52) == 0xa09d3bfcf72cf30cu64);
    assert((0xa09d3bfcf72cf30cnat * 6364136223846793005nat + 1) % 0x1_0000_0000_0000_0000nat == 0x915d6883c575ad1dnat) by (nonlinear_arith);
    assert(lcg_key(53) == 0x915d6883c575ad1du64);
    assert((0x915d6883c575ad1dnat * 6364136223846793005nat + 1) % 0x1_0000_0000_0000_0000nat == 0x7471ad1a7471d11anat) by (nonlinear_arith);
    assert(lcg_key(54) == 0x7471ad1a7471d11au64);
    assert((0x7471ad1a7471d11anat * 6364136223846793005nat + 1) % 0x1_0000_0000_0000_0000nat == 0x845ba74f5adfa793nat) by (nonlinear_arith);
    assert(lcg_key(55) == 0x845ba74f5adfa793u64);
    assert((0x845ba74f5adfa793nat * 6364136223846793005nat + 1) % 0x1_0000_0000_0000_0000nat == 0x5ed2a1cb1a0161d8nat) by (nonlinear_arith);
    assert(lcg_key(56) == 0x5ed2a1cb1a0161d8u64);
    assert((0x5ed2a1cb1a0161d8nat * 6364136223846793005nat + 1) % 0x1_0000_0000_0000_0000nat == 0xb910d16c54805af9nat) by (nonlinear_arith);
    assert(lcg_key(57) == 0xb910d16c54805af9u64);
    assert((0xb910d16c54805af9nat * 6364136223846793005nat + 1) % 0x1_0000_0000_0000_0000nat == 0x7f0b2972669e84c6nat) by (nonlinear_arith);
    assert(lcg_key(58) == 0x7f0b2972669e84c6u64);
    assert((0x7f0b2972669e84c6nat * 6364136223846793005nat + 1) % 0x1_0000_0000_0000_0000nat == 0x27a2e280bcf990cfnat) by (nonlinear_arith);
    assert(lcg_key(59) == 0x27a2e280bcf990cfu64);
    assert((0x27a2e280bcf990cfnat * 6364136223846793005nat + 1) % 0x1_0000_0000_0000_0000nat == 0xe26a8302c3302564nat) by (nonlinear_arith);
    assert(lcg_key(60) == 0xe26a8302c3302564u64);
}

pub(crate) proof fn lemma_steps_6()
    requires
        lcg_key(60) == 0xe26a8302c3302564u64,
    ensures
        lcg_key(61) == 0x1e032f04a5372e95u64,
        lcg_key(62) == 0x31e150eac3881b32u64,
        lcg_key(63) == 0x3a1a5659908495cbu64,
        lcg_key(64) == 0x13cee6c2a0c509b0u64,
        lcg_key(65) == 0xd769a376e5e103f1u64,
        lcg_key(66) == 0xadacb670e0c7405eu64,
        lcg_key(67) == 0x0269f4f4baaaf287u64,
        lcg_key(68) == 0x1aed2ad9daf09abcu64,
        lcg_key(69) == 0x6700daeeb87a770du64,
        lcg_key(70) == 0x1d94f5635527604au64,
{
    assert((0xe26a8302c3302564nat * 6364136223846793005nat + 1) % 0x1_0000_0000_0000_0000nat == 0x1e032f04a5372e95nat) by (nonlinear_arith);
    assert(lcg_key(61) == 0x1e032f04a5372e95u64);
    assert((0x1e032f04a5372e95nat * 6364136223846793005nat + 1) % 0x1_0000_0000_0000_0000nat == 0x31e150eac3881b32nat) by (nonlinear_arith);
    assert(lcg_key(62) == 0x31e150eac3881b32u64);
    assert((0x31e150eac3881b32nat * 6364136223846793005nat + 1) % 0x1_0000_0000_0000_0000nat == 0x3a1a5659908495cbnat) by (nonlinear_arith);
    assert(lcg_key(63) == 0x3a1a5659908495cbu64);
    assert((0x3a1a5659908495cbnat * 6364136223846793005nat + 1) % 0x1_0000_0000_0000_0000nat == 0x13cee6c2a0c509b0nat) by (nonlinear_arith);
    assert(lcg_key(64) == 0x13cee6c2a0c509b0u64);
    assert((0x13cee6c2a0c509b0nat * 6364136223846793005nat + 1) % 0x1_0000_0000_0000_0000nat == 0xd769a376e5e103f1nat) by (nonlinear_arith);
    assert(lcg_key(65) == 0xd769a376e5e103f1u64);
    assert((0xd769a376e5e103f1nat * 6364136223846793005nat + 1) % 0x1_0000_0000_0000_0000nat == 0xadacb670e0c7405enat) by (nonlinear_arith);
    assert(lcg_key(66) == 0xadacb670e0c7405eu64);
    assert((0xadacb670e0c7405enat * 6364136223846793005nat + 1) % 0x1_0000_0000_0000_0000nat == 0x0269f4f4baaaf287nat) by (nonlinear_arith);
    assert(lcg_key(67) == 0x0269f4f4baaaf287u64);
    assert((0x0269f4f4baaaf287nat * 6364136223846793005nat + 1) % 0x1_0000_0000_0000_0000nat == 0x1aed2ad9daf09abcnat) by (nonlinear_arith);
    assert(lcg_key(68) == 0x1aed2ad9daf09abcu64);
    assert((0x1aed2ad9daf09abcnat * 6364136223846793005nat + 1) % 0x1_0000_0000_0000_0000nat == 0x6700daeeb87a770dnat) by (nonlinear_arith);
    assert(lcg_key(69) == 0x6700daeeb87a770du64);
    assert((0x6700daeeb87a770dnat * 6364136223846793005nat + 1) % 0x1_0000_0000_0000_0000nat == 0x1d94f5635527604anat) by (nonlinear_arith);
    assert(lcg_key(70) == 0x1d94f5635527604au64);
}

pub(crate) proof fn lemma_steps_7()
    requires
        lcg_key(70) == 0x1d94f5635527604au64,
    ensures
        lcg_key(71) == 0xd0201f3783c2a303u64,
        lcg_key(72) == 0x741803547cd42488u64,
        lcg_key(73) == 0xca3f2e00d291e3e9u64,
        lcg_key(74) == 0x2f8381233652a6f6u64,
        lcg_key(75) == 0xec4d240dc289633fu64,
        lcg_key(76) == 0x13e2ab6dd20db314u64,
        lcg_key(77) == 0xd7967b29e2e36685u64,
        lcg_key(78) == 0x730ec816d93e0062u64,
        lcg_key(79) == 0xe3ecd4374320af3bu64,
        lcg_key(80) == 0x276e876e85041260u64,
{
    assert((0x1d94f5635527604anat * 6364136223846793005nat + 1) % 0x1_0000_0000_0000_0000nat == 0xd0201f3783c2a303nat) by (nonlinear_arith);
    assert(lcg_key(71) == 0xd0201f3783c2a303u64);
    assert((0xd0201f3783c2a303nat * 6364136223846793005nat + 1) % 0x1_0000_0000_0000_0000nat == 0x741803547cd42488nat) by (nonlinear_arith);
    assert(lcg_key(72) == 0x741803547cd42488u64);
    assert((0x741803547cd42488nat * 6364136223846793005nat + 1) % 0x1_0000_0000_0000_0000nat == 0xca3f2e00d291e3e9nat) by (nonlinear_arith);
    assert(lcg_key(73) == 0xca3f2e00d291e3e9u64);
    assert((0xca3f2e00d291e3e9nat * 6364136223846793005nat + 1) % 0x1_0000_0000_0000_0000nat == 0x2f8381233652a6f6nat) by (nonlinear_arith);
    assert(lcg_key(74) == 0x2f8381233652a6f6u64);
    assert((0x2f8381233652a6f6nat * 6364136223846793005nat + 1) % 0x1_0000_0000_0000_0000nat == 0xec4d240dc289633fnat) by (nonlinear_arith);
    assert(lcg_key(75) == 0xec4d240dc289633fu64);
    assert((0xec4d240dc289633fnat * 6364136223846793005nat + 1) % 0x1_0000_0000_0000_0000nat == 0x13e2ab6dd20db314nat) by (nonlinear_arith);
    assert(lcg_key(76) == 0x13e2ab6dd20db314u64);
    assert((0x13e2ab6dd20db314nat * 6364136223846793005nat + 1) % 0x1_0000_0000_0000_0000nat == 0xd7967b29e2e36685nat) by (nonlinear_arith);
    assert(lcg_key(77) == 0xd7967b29e2e36685u64);
    assert((0xd7967b29e2e36685nat * 6364136223846793005nat + 1) % 0x1_0000_0000_0000_0000nat == 0x730ec816d93e0062nat) by (nonlinear_arith);
    assert(lcg_key(78) == 0x730ec816d93e0062u64);
    assert((0x730ec816d93e0062nat * 6364136223846793005nat + 1) % 0x1_0000_0000_0000_0000nat == 0xe3ecd4374320af3bnat) by (nonlinear_arith);
    assert(lcg_key(79) == 0xe3ecd4374320af3bu64);
    assert((0xe3ecd4374320af3bnat * 6364136223846793005nat + 1) % 0x1_0000_0000_0000_0000nat == 0x276e876e85041260nat) by (nonlinear_arith);
    assert(lcg_key(80) == 0x276e876e85041260u64);
}

pub(crate) proof fn lemma_steps_8()
    requires
        lcg_key(80) == 0x276e876e85041260u64,
    ensures
        lcg_key(81) == 0x7a08fe1d98b4dae1u64,
        lcg_key(82) == 0x6bced9c0c155188eu64,
        lcg_key(83) == 0x34435992a5c9c2f7u64,
        lcg_key(84) == 0x4f4a94c109f2ce6cu64,
        lcg_key(85) == 0x6fd0027468f1dcfdu64,
        lcg_key(86) == 0xb2e30d602a665b7au64,
        lcg_key(87) == 0x4fe37c1db1619a73u64,
        lcg_key(88) == 0x8f418617a2b63338u64,
        lcg_key(89) == 0x77aa77f86d07c8d9u64,
        lcg_key(90) == 0xe8e73c0f594ef526u64,
{
    assert((0x276e876e85041260nat * 6364136223846793005nat + 1) % 0x1_0000_0000_0000_0000nat == 0x7a08fe1d98b4dae1nat) by (nonlinear_arith);
    assert(lcg_key(81) == 0x7a08fe1d98b4dae1u64);
    assert((0x7a08fe1d98b4dae1nat * 6364136223846793005nat + 1) % 0x1_0000_0000_0000_0000nat == 0x6bced9c0c155188enat) by (nonlinear_arith);
    assert(lcg_key(82) == 0x6bced9c0c155188eu64);
    assert((0x6bced9c0c155188enat * 6364136223846793005nat + 1) % 0x1_0000_0000_0000_0000nat == 0x34435992a5c9c2f7nat) by (nonlinear_arith);
    assert(lcg_key(83) == 0x34435992a5c9c2f7u64);
    assert((0x34435992a5c9c2f7nat * 6364136223846793005nat + 1) % 0x1_0000_0000_0000_0000nat == 0x4f4a94c109f2ce6cnat) by (nonlinear_arith);
    assert(lcg_key(84) == 0x4f4a94c109f2ce6cu64);
    assert((0x4f4a94c109f2ce6cnat * 6364136223846793005nat + 1) % 0x1_0000_0000_0000_0000nat == 0x6fd0027468f1dcfdnat) by (nonlinear_arith);
    assert(lcg_key(85) == 0x6fd0027468f1dcfdu64);
    assert((0x6fd0027468f1dcfdnat * 6364136223846793005nat + 1) % 0x1_0000_0000_0000_0000nat == 0xb2e30d602a665b7anat) by (nonlinear_arith);
    assert(lcg_key(86) == 0xb2e30d602a665b7au64);
    assert((0xb2e30d602a665b7anat * 6364136223846793005nat + 1) % 0x1_0000_0000_0000_0000nat == 0x4fe37c1db1619a73nat) by (nonlinear_arith);
    assert(lcg_key(87) == 0x4fe37c1db1619a73u64);
    assert((0x4fe37c1db1619a73nat * 6364136223846793005nat + 1) % 0x1_0000_0000_0000_0000nat == 0x8f418617a2b63338nat) by (nonlinear_arith);
    assert(lcg_key(88) == 0x8f418617a2b63338u64);
    assert((0x8f418617a2b63338nat * 6364136223846793005nat + 1) % 0x1_0000_0000_0000_0000nat == 0x77aa77f86d07c8d9nat) by (nonlinear_arith);
    assert(lcg_key(89) == 0x77aa77f86d07c8d9u64);
    assert((0x77aa77f86d07c8d9nat * 6364136223846793005nat + 1) % 0x1_0000_0000_0000_0000nat == 0xe8e73c0f594ef526nat) by (nonlinear_arith);
    assert(lcg_key(90) == 0xe8e73c0f594ef526u64);
}

pub(crate) proof fn lemma_steps_9()
    requires
        lcg_key(90) == 0xe8e73c0f594ef526u64,
    ensures
        lcg_key(91) == 0xc072e76ad59cf1afu64,
        lcg_key(92) == 0x00e9e19c07574cc4u64,
        lcg_key(93) == 0xfb8e8f1f7781ba75u64,
        lcg_key(94) == 0x7465213e9f66d192u64,
        lcg_key(95) == 0x160e34cf590444abu64,
        lcg_key(96) == 0x711c47897f57e710u64,
        lcg_key(97) == 0x2509ddea3a648dd1u64,
        lcg_key(98) == 0xec762d81bcac9cbeu64,
        lcg_key(99) == 0xc9ba10cd6eafcf67u64,
        lcg_key(100) == 0x96a51d06f7be8e1cu64,
{
    assert((0xe8e73c0f594ef526nat * 6364136223846793005nat + 1) % 0x1_0000_0000_0000_0000nat == 0xc072e76ad59cf1afnat) by (nonlinear_arith);
    assert(lcg_key(91) == 0xc072e76ad59cf1afu64);
    assert((0xc072e76ad59cf1afnat * 6364136223846793005nat + 1) % 0x1_0000_0000_0000_0000nat == 0x00e9e19c07574cc4nat) by (nonlinear_arith);
    assert(lcg_key(92) == 0x00e9e19c07574cc4u64);
    assert((0x00e9e19c07574cc4nat * 6364136223846793005nat + 1) % 0x1_0000_0000_0000_0000nat == 0xfb8e8f1f7781ba75nat) by (nonlinear_arith);
    assert(lcg_key(93) == 0xfb8e8f1f7781ba75u64);
    assert((0xfb8e8f1f7781ba75nat * 6364136223846793005nat + 1) % 0x1_0000_0000_0000_0000nat == 0x7465213e9f66d192nat) by (nonlinear_arith);
    assert(lcg_key(94) == 0x7465213e9f66d192u64);
    assert((0x7465213e9f66d192nat * 6364136223846793005nat + 1) % 0x1_0000_0000_0000_0000nat == 0x160e34cf590444abnat) by (nonlinear_arith);
    assert(lcg_key(95) == 0x160e34cf590444abu64);
    assert((0x160e34cf590444abnat * 6364136223846793005nat + 1) % 0x1_0000_0000_0000_0000nat == 0x711c47897f57e710nat) by (nonlinear_arith);
    assert(lcg_key(96) == 0x711c47897f57e710u64);
    assert((0x711c47897f57e710nat * 6364136223846793005nat + 1) % 0x1_0000_0000_0000_0000nat == 0x2509ddea3a648dd1nat) by (nonlinear_arith);
    assert(lcg_key(97) == 0x2509ddea3a648dd1u64);
    assert((0x2509ddea3a648dd1nat * 6364136223846793005nat + 1) % 0x1_0000_0000_0000_0000nat == 0xec762d81bcac9cbenat) by (nonlinear_arith);
    assert(lcg_key(98) == 0xec762d81bcac9cbeu64);
    assert((0xec762d81bcac9cbenat * 6364136223846793005nat + 1) % 0x1_0000_0000_0000_0000nat == 0xc9ba10cd6eafcf67nat) by (nonlinear_arith);
    assert(lcg_key(99) == 0xc9ba10cd6eafcf67u64);
    assert((0xc9ba10cd6eafcf67nat * 6364136223846793005nat + 1) % 0x1_0000_0000_0000_0000nat == 0x96a51d06f7be8e1cnat) by (nonlinear_arith);
    assert(lcg_key(100) == 0x96a51d06f7be8e1cu64);
}

pub(crate) proof fn lemma_steps_10()
    requires
        lcg_key(100) == 0x96a51d06f7be8e1cu64,
    ensures
        lcg_key(101) == 0x1dd4fe261b4adeedu64,
        lcg_key(102) == 0x4e6dc4a80cb1c2aau64,
        lcg_key(103) == 0x480258f92fc38de3u64,
        lcg_key(104) == 0x4b336a5761e28de8u64,
        lcg_key(105) == 0x5a3257b1114109c9u64,
        lcg_key(106) == 0xa5e3e7c6aa466f56u64,
        lcg_key(107) == 0xf4eeda8f34ab3c1fu64,
        lcg_key(108) == 0x6a9c114366f7f274u64,
        lcg_key(109) == 0x3c2c319ca8612a65u64,
        lcg_key(110) == 0x39fe00f675e58ec2u64,
{
    assert((0x96a51d06f7be8e1cnat * 6364136223846793005nat + 1) % 0x1_0000_0000_0000_0000nat == 0x1dd4fe261b4adeednat) by (nonlinear_arith);
    assert(lcg_key(101) == 0x1dd4fe261b4adeedu64);
    assert((0x1dd4fe261b4adeednat * 6364136223846793005nat + 1) % 0x1_0000_0000_0000_0000nat == 0x4e6dc4a80cb1c2aanat) by (nonlinear_arith);
    assert(lcg_key(102) == 0x4e6dc4a80cb1c2aau64);
    assert((0x4e6dc4a80cb1c2aanat * 6364136223846793005nat + 1) % 0x1_0000_0000_0000_0000nat == 0x480258f92fc38de3nat) by (nonlinear_arith);
    assert(lcg_key(103) == 0x480258f92fc38de3u64);
    assert((0x480258f92fc38de3nat * 6364136223846793005nat + 1) % 0x1_0000_0000_0000_0000nat == 0x4b336a5761e28de8nat) by (nonlinear_arith);
    assert(lcg_key(104) == 0x4b336a5761e28de8u64);
    assert((0x4b336a5761e28de8nat * 6364136223846793005nat + 1) % 0x1_0000_0000_0000_0000nat == 0x5a3257b1114109c9nat) by (nonlinear_arith);
    assert(lcg_key(105) == 0x5a3257b1114109c9u64);
    assert((0x5a3257b1114109c9nat * 6364136223846793005nat + 1) % 0x1_0000_0000_0000_0000nat == 0xa5e3e7c6aa466f56nat) by (nonlinear_arith);
    assert(lcg_key(106) == 0xa5e3e7c6aa466f56u64);
    assert((0xa5e3e7c6aa466f56nat * 6364136223846793005nat + 1) % 0x1_0000_0000_0000_0000nat == 0xf4eeda8f34ab3c1fnat) by (nonlinear_arith);
    assert(lcg_key(107) == 0xf4eeda8f34ab3c1fu64);
    assert((0xf4eeda8f34ab3c1fnat * 6364136223846793005nat + 1) % 0x1_0000_0000_0000_0000nat == 0x6a9c114366f7f274nat) by (nonlinear_arith);
    assert(lcg_key(108) == 0x6a9c114366f7f274u64);
    assert((0x6a9c114366f7f274nat * 6364136223846793005nat + 1) % 0x1_0000_0000_0000_0000nat == 0x3c2c319ca8612a65nat) by (nonlinear_arith);
    assert(lcg_key(109) == 0x3c2c319ca8612a65u64);
    assert((0x3c2c319ca8612a65nat * 6364136223846793005nat + 1) % 0x1_0000_0000_0000_0000nat == 0x39fe00f675e58ec2nat) by (nonlinear_arith);
    assert(lcg_key(110) == 0x39fe00f675e58ec2u64);
}

pub(crate) proof fn lemma_steps_11()
    requires
        lcg_key(110) == 0x39fe00f675e58ec2u64,
    ensures
        lcg_key(111) == 0x4f6034e74a16561bu64,
        lcg_key(112) == 0xf94ea9b83c5b87c0u64,
        lcg_key(113) == 0x206665a7072f1cc1u64,
        lcg_key(114) == 0xda87e7ceaae0cceeu64,
        lcg_key(115) == 0x100c559d7db417d7u64,
        lcg_key(116) == 0xb907ebbc249ed9ccu64,
        lcg_key(117) == 0x64c5f83691b47cddu64,
        lcg_key(118) == 0xb59dadd76f4c95dau64,
        lcg_key(119) == 0x32a812777eaf7d53u64,
        lcg_key(120) == 0x396c7fc9e9543498u64,
{
    assert((0x39fe00f675e58ec2nat * 6364136223846793005nat + 1) % 0x1_0000_0000_0000_0000nat == 0x4f6034e74a16561bnat) by (nonlinear_arith);
    assert(lcg_key(111) == 0x4f6034e74a16561bu64);
    assert((0x4f6034e74a16561bnat * 6364136223846793005nat + 1) % 0x1_0000_0000_0000_0000nat == 0xf94ea9b83c5b87c0nat) by (nonlinear_arith);
    assert(lcg_key(112) == 0xf94ea9b83c5b87c0u64);
    assert((0xf94ea9b83c5b87c0nat * 6364136223846793005nat + 1) % 0x1_0000_0000_0000_0000nat == 0x206665a7072f1cc1nat) by (nonlinear_arith);
    assert(lcg_key(113) == 0x206665a7072f1cc1u64);
    assert((0x206665a7072f1cc1nat * 6364136223846793005nat + 1) % 0x1_0000_0000_0000_0000nat == 0xda87e7ceaae0cceenat) by (nonlinear_arith);
    assert(lcg_key(114) == 0xda87e7ceaae0cceeu64);
    assert((0xda87e7ceaae0cceenat * 6364136223846793005nat + 1) % 0x1_0000_0000_0000_0000nat == 0x100c559d7db417d7nat) by (nonlinear_arith);
    assert(lcg_key(115) == 0x100c559d7db417d7u64);
    assert((0x100c559d7db417d7nat * 6364136223846793005nat + 1) % 0x1_0000_0000_0000_0000nat == 0xb907ebbc249ed9ccnat) by (nonlinear_arith);
    assert(lcg_key(116) == 0xb907ebbc249ed9ccu64);
    assert((0xb907ebbc249ed9ccnat * 6364136223846793005nat + 1) % 0x1_0000_0000_0000_0000nat == 0x64c5f83691b47cddnat) by (nonlinear_arith);
    assert(lcg_key(117) == 0x64c5f83691b47cddu64);
    assert((0x64c5f83691b47cddnat * 6364136223846793005nat + 1) % 0x1_0000_0000_0000_0000nat == 0xb59dadd76f4c95danat) by (nonlinear_arith);
    assert(lcg_key(118) == 0xb59dadd76f4c95dau64);
    assert((0xb59dadd76f4c95danat * 6364136223846793005nat + 1) % 0x1_0000_0000_0000_0000nat == 0x32a812777eaf7d53nat) by (nonlinear_arith);
    assert(lcg_key(119) == 0x32a812777eaf7d53u64);
    assert((0x32a812777eaf7d53nat * 6364136223846793005nat + 1) % 0x1_0000_0000_0000_0000nat == 0x396c7fc9e9543498nat) by (nonlinear_arith);
    assert(lcg_key(120) == 0x396c7fc9e9543498u64);
}

pub(crate) proof fn lemma_steps_12()
    requires
        lcg_key(120) == 0x396c7fc9e9543498u64,
    ensures
        lcg_key(121) == 0x67478d96865ca6b9u64,
        lcg_key(122) == 0x050be80e8aac1586u64,
        lcg_key(123) == 0x71024e740deb428fu64,
        lcg_key(124) == 0x050b4e21599aa424u64,
        lcg_key(125) == 0x52c78160b090b655u64,
        lcg_key(126) == 0x681080e32f5d37f2u64,
        lcg_key(127) == 0x016917d5f9fde38bu64,
        lcg_key(128) == 0x7d8ab3639969f470u64,
        lcg_key(129) == 0xa6ee688a0d1387b1u64,
        lcg_key(130) == 0x22c4d38482c4a91eu64,
{
    assert((0x396c7fc9e9543498nat * 6364136223846793005nat + 1) % 0x1_0000_0000_0000_0000nat == 0x67478d96865ca6b9nat) by (nonlinear_arith);
    assert(lcg_key(121) == 0x67478d96865ca6b9u64);
    assert((0x67478d96865ca6b9nat * 6364136223846793005nat + 1) % 0x1_0000_0000_0000_0000nat == 0x050be80e8aac1586nat) by (nonlinear_arith);
    assert(lcg_key(122) == 0x050be80e8aac1586u64);
    assert((0x050be80e8aac1586nat * 6364136223846793005nat + 1) % 0x1_0000_0000_0000_0000nat == 0x71024e740deb428fnat) by (nonlinear_arith);
    assert(lcg_key(123) == 0x71024e740deb428fu64);
    assert((0x71024e740deb428fnat * 6364136223846793005nat + 1) % 0x1_0000_0000_0000_0000nat == 0x050b4e21599aa424nat) by (nonlinear_arith);
    assert(lcg_key(124) == 0x050b4e21599aa424u64);
    assert((0x050b4e21599aa424nat * 6364136223846793005nat + 1) % 0x1_0000_0000_0000_0000nat == 0x52c78160b090b655nat) by (nonlinear_arith);
    assert(lcg_key(125) == 0x52c78160b090b655u64);
    assert((0x52c78160b090b655nat * 6364136223846793005nat + 1) % 0x1_0000_0000_0000_0000nat == 0x681080e32f5d37f2nat) by (nonlinear_arith);
    assert(lcg_key(126) == 0x681080e32f5d37f2u64);
    assert((0x681080e32f5d37f2nat * 6364136223846793005nat + 1) % 0x1_0000_0000_0000_0000nat == 0x016917d5f9fde38bnat) by (nonlinear_arith);
    assert(lcg_key(127) == 0x016917d5f9fde38bu64);
    assert((0x016917d5f9fde38bnat * 6364136223846793005nat + 1) % 0x1_0000_0000_0000_0000nat == 0x7d8ab3639969f470nat) by (nonlinear_arith);
    assert(lcg_key(128) == 0x7d8ab3639969f470u64);
    assert((0x7d8ab3639969f470nat * 6364136223846793005nat + 1) % 0x1_0000_0000_0000_0000nat == 0xa6ee688a0d1387b1nat) by (nonlinear_arith);
    assert(lcg_key(129) == 0xa6ee688a0d1387b1u64);
    assert((0xa6ee688a0d1387b1nat * 6364136223846793005nat + 1) % 0x1_0000_0000_0000_0000nat == 0x22c4d38482c4a91enat) by (nonlinear_arith);
    assert(lcg_key(130) == 0x22c4d38482c4a91eu64);
}

pub(crate) proof fn lemma_steps_13()
    requires
        lcg_key(130) == 0x22c4d38482c4a91eu64,
    ensures
        lcg_key(131) == 0x74babc1be2ed9c47u64,
        lcg_key(132) == 0x22eda9a6cd9eb17cu64,
        lcg_key(133) == 0x7c5cbf2dfc1db6cdu64,
        lcg_key(134) == 0xbe1380c15039d50au64,
        lcg_key(135) == 0x7c046071c1ac68c3u64,
        lcg_key(136) == 0x6d2d91cd70c62748u64,
        lcg_key(137) == 0x84728ab55d399fa9u64,
        lcg_key(138) == 0x99f5ddc612b2e7b6u64,
        lcg_key(139) == 0x99f57100ef5404ffu64,
        lcg_key(140) == 0x43037e1a5caa61d4u64,
{
    assert((0x22c4d38482c4a91enat * 6364136223846793005nat + 1) % 0x1_0000_0000_0000_0000nat == 0x74babc1be2ed9c47nat) by (nonlinear_arith);
    assert(lcg_key(131) == 0x74babc1be2ed9c47u64);
    assert((0x74babc1be2ed9c47nat * 6364136223846793005nat + 1) % 0x1_0000_0000_0000_0000nat == 0x22eda9a6cd9eb17cnat) by (nonlinear_arith);
    assert(lcg_key(132) == 0x22eda9a6cd9eb17cu64);
    assert((0x22eda9a6cd9eb17cnat * 6364136223846793005nat + 1) % 0x1_0000_0000_0000_0000nat == 0x7c5cbf2dfc1db6cdnat) by (nonlinear_arith);
    assert(lcg_key(133) == 0x7c5cbf2dfc1db6cdu64);
    assert((0x7c5cbf2dfc1db6cdnat * 6364136223846793005nat + 1) % 0x1_0000_0000_0000_0000nat == 0xbe1380c15039d50anat) by (nonlinear_arith);
    assert(lcg_key(134) == 0xbe1380c15039d50au64);
    assert((0xbe1380c15039d50anat * 6364136223846793005nat + 1) % 0x1_0000_0000_0000_0000nat == 0x7c046071c1ac68c3nat) by (nonlinear_arith);
    assert(lcg_key(135) == 0x7c046071c1ac68c3u64);
    assert((0x7c046071c1ac68c3nat * 6364136223846793005nat + 1) % 0x1_0000_0000_0000_0000nat == 0x6d2d91cd70c62748nat) by (nonlinear_arith);
    assert(lcg_key(136) == 0x6d2d91cd70c62748u64);
    assert((0x6d2d91cd70c62748nat * 6364136223846793005nat + 1) % 0x1_0000_0000_0000_0000nat == 0x84728ab55d399fa9nat) by (nonlinear_arith);
    assert(lcg_key(137) == 0x84728ab55d399fa9u64);
    assert((0x84728ab55d399fa9nat * 6364136223846793005nat + 1) % 0x1_0000_0000_0000_0000nat == 0x99f5ddc612b2e7b6nat) by (nonlinear_arith);
    assert(lcg_key(138) == 0x99f5ddc612b2e7b6u64);
    assert((0x99f5ddc612b2e7b6nat * 6364136223846793005nat + 1) % 0x1_0000_0000_0000_0000nat == 0x99f57100ef5404ffnat) by (nonlinear_arith);
    assert(lcg_key(139) == 0x99f57100ef5404ffu64);
    assert((0x99f57100ef5404ffnat * 6364136223846793005nat + 1) % 0x1_0000_0000_0000_0000nat == 0x43037e1a5caa61d4nat) by (nonlinear_arith);
    assert(lcg_key(140) == 0x43037e1a5caa61d4u64);
}

pub(crate) proof fn lemma_steps_14()
    requires
        lcg_key(140) == 0x43037e1a5caa61d4u64,
    ensures
        lcg_key(141) == 0x3f4c0514b0df5e45u64,
        lcg_key(142) == 0x7961c0814130cd22u64,
        lcg_key(143) == 0xd01edb572821ecfbu64,
        lcg_key(144) == 0x15221d73549e2d20u64,
        lcg_key(145) == 0xeecb08561bd0cea1u64,
        lcg_key(146) == 0xbeca231c89eb314eu64,
        lcg_key(147) == 0x8c856facc6335cb7u64,
        lcg_key(148) == 0x398eab489c89152cu64,
        lcg_key(149) == 0x23fb9839e8358cbdu64,
        lcg_key(150) == 0x49bd6a8c683c803au64,
{
    assert((0x43037e1a5caa61d4nat * 6364136223846793005nat + 1) % 0x1_0000_0000_0000_0000nat == 0x3f4c0514b0df5e45nat) by (nonlinear_arith);
    assert(lcg_key(141) == 0x3f4c0514b0df5e45u64);
    assert((0x3f4c0514b0df5e45nat * 6364136223846793005nat + 1) % 0x1_0000_0000_0000_0000nat == 0x7961c0814130cd22nat) by (nonlinear_arith);
    assert(lcg_key(142) == 0x7961c0814130cd22u64);
    assert((0x7961c0814130cd22nat * 6364136223846793005nat + 1) % 0x1_0000_0000_0000_0000nat == 0xd01edb572821ecfbnat) by (nonlinear_arith);
    assert(lcg_key(143) == 0xd01edb572821ecfbu64);
    assert((0xd01edb572821ecfbnat * 6364136223846793005nat + 1) % 0x1_0000_0000_0000_0000nat == 0x15221d73549e2d20nat) by (nonlinear_arith);
    assert(lcg_key(144) == 0x15221d73549e2d20u64);
    assert((0x15221d73549e2d20nat * 6364136223846793005nat + 1) % 0x1_0000_0000_0000_0000nat == 0xeecb08561bd0cea1nat) by (nonlinear_arith);
    assert(lcg_key(145) == 0xeecb08561bd0cea1u64);
    assert((0xeecb08561bd0cea1nat * 6364136223846793005nat + 1) % 0x1_0000_0000_0000_0000nat == 0xbeca231c89eb314enat) by (nonlinear_arith);
    assert(lcg_key(146) == 0xbeca231c89eb314eu64);
    assert((0xbeca231c89eb314enat * 6364136223846793005nat + 1) % 0x1_0000_0000_0000_0000nat == 0x8c856facc6335cb7nat) by (nonlinear_arith);
    assert(lcg_key(147) == 0x8c856facc6335cb7u64);
    assert((0x8c856facc6335cb7nat * 6364136223846793005nat + 1) % 0x1_0000_0000_0000_0000nat == 0x398eab489c89152cnat) by (nonlinear_arith);
    assert(lcg_key(148) == 0x398eab489c89152cu64);
    assert((0x398eab489c89152cnat * 6364136223846793005nat + 1) % 0x1_0000_0000_0000_0000nat == 0x23fb9839e8358cbdnat) by (nonlinear_arith);
    assert(lcg_key(149) == 0x23fb9839e8358cbdu64);
    assert((0x23fb9839e8358cbdnat * 6364136223846793005nat + 1) % 0x1_0000_0000_0000_0000nat == 0x49bd6a8c683c803anat) by (nonlinear_arith);
    assert(lcg_key(150) == 0x49bd6a8c683c803au64);
}

pub(crate) proof fn lemma_steps_15()
    requires
        lcg_key(150) == 0x49bd6a8c683c803au64,
    ensures
        lcg_key(151) == 0x2005d5de30015033u64,
        lcg_key(152) == 0x8f80db68e8b365f8u64,
        lcg_key(153) == 0x67d59c29e076f499u64,
        lcg_key(154) == 0x5e7c0276414de5e6u64,
        lcg_key(155) == 0x32d2dd34369c836fu64,
        lcg_key(156) == 0x4f4fefe5b2522b84u64,
        lcg_key(157) == 0x3960c3c99fdc2235u64,
        lcg_key(158) == 0xdc045d57f3834e52u64,
        lcg_key(159) == 0x343bad5adfa9726bu64,
        lcg_key(160) == 0x777a2254bcd331d0u64,
{
    assert((0x49bd6a8c683c803anat * 6364136223846793005nat + 1) % 0x1_0000_0000_0000_0000nat == 0x2005d5de30015033nat) by (nonlinear_arith);
    assert(lcg_key(151) == 0x2005d5de30015033u64);
    assert((0x2005d5de30015033nat * 6364136223846793005nat + 1) % 0x1_0000_0000_0000_0000nat == 0x8f80db68e8b365f8nat) by (nonlinear_arith);
    assert(lcg_key(152) == 0x8f80db68e8b365f8u64);
    assert((0x8f80db68e8b365f8nat * 6364136223846793005nat + 1) % 0x1_0000_0000_0000_0000nat == 0x67d59c29e076f499nat) by (nonlinear_arith);
    assert(lcg_key(153) == 0x67d59c29e076f499u64);
    assert((0x67d59c29e076f499nat * 6364136223846793005nat + 1) % 0x1_0000_0000_0000_0000nat == 0x5e7c0276414de5e6nat) by (nonlinear_arith);
    assert(lcg_key(154) == 0x5e7c0276414de5e6u64);
    assert((0x5e7c0276414de5e6nat * 6364136223846793005nat + 1) % 0x1_0000_0000_0000_0000nat == 0x32d2dd34369c836fnat) by (nonlinear_arith);
    assert(lcg_key(155) == 0x32d2dd34369c836fu64);
    assert((0x32d2dd34369c836fnat * 6364136223846793005nat + 1) % 0x1_0000_0000_0000_0000nat == 0x4f4fefe5b2522b84nat) by (nonlinear_arith);
    assert(lcg_key(156) == 0x4f4fefe5b2522b84u64);
    assert((0x4f4fefe5b2522b84nat * 6364136223846793005nat + 1) % 0x1_0000_0000_0000_0000nat == 0x3960c3c99fdc2235nat) by (nonlinear_arith);
    assert(lcg_key(157) == 0x3960c3c99fdc2235u64);
    assert((0x3960c3c99fdc2235nat * 6364136223846793005nat + 1) % 0x1_0000_0000_0000_0000nat == 0xdc045d57f3834e52nat) by (nonlinear_arith);
    assert(lcg_key(158) == 0xdc045d57f3834e52u64);
    assert((0xdc045d57f3834e52nat * 6364136223846793005nat + 1) % 0x1_0000_0000_0000_0000nat == 0x343bad5adfa9726bnat) by (nonlinear_arith);
    assert(lcg_key(159) == 0x343bad5adfa9726bu64);
    assert((0x343bad5adfa9726bnat * 6364136223846793005nat + 1) % 0x1_0000_0000_0000_0000nat == 0x777a2254bcd331d0nat) by (nonlinear_arith);
    assert(lcg_key(160) == 0x777a2254bcd331d0u64);
}

pub(crate) proof fn lemma_steps_16()
    requires
        lcg_key(160) == 0x777a2254bcd331d0u64,
    ensures
        lcg_key(161) == 0x7a4aadd7b4e5f191u64,
        lcg_key(162) == 0x0129c9b284a7657eu64,
        lcg_key(163) == 0x9eb7dae5d71c5927u64,
        lcg_key(164) == 0x31d7f5f057e904dcu64,
        lcg_key(165) == 0x1b285999316afeadu64,
        lcg_key(166) == 0x22a8eebc5ad7976au64,
        lcg_key(167) == 0x917aee3d84b533a3u64,
        lcg_key(168) == 0xe3a4de18aa56f0a8u64,
        lcg_key(169) == 0x18e6a86b0473a589u64,
        lcg_key(170) == 0x14284b8e2c301016u64,
{
    assert((0x777a2254bcd331d0nat * 6364136223846793005nat + 1) % 0x1_0000_0000_0000_0000nat == 0x7a4aadd7b4e5f191nat) by (nonlinear_arith);
    assert(lcg_key(161) == 0x7a4aadd7b4e5f191u64);
    assert((0x7a4aadd7b4e5f191nat * 6364136223846793005nat + 1) % 0x1_0000_0000_0000_0000nat == 0x0129c9b284a7657enat) by (nonlinear_arith);
    assert(lcg_key(162) == 0x0129c9b284a7657eu64);
    assert((0x0129c9b284a7657enat * 6364136223846793005nat + 1) % 0x1_0000_0000_0000_0000nat == 0x9eb7dae5d71c5927nat) by (nonlinear_arith);
    assert(lcg_key(163) == 0x9eb7dae5d71c5927u64);
    assert((0x9eb7dae5d71c5927nat * 6364136223846793005nat + 1) % 0x1_0000_0000_0000_0000nat == 0x31d7f5f057e904dcnat) by (nonlinear_arith);
    assert(lcg_key(164) == 0x31d7f5f057e904dcu64);
    assert((0x31d7f5f057e904dcnat * 6364136223846793005nat + 1) % 0x1_0000_0000_0000_0000nat == 0x1b285999316afeadnat) by (nonlinear_arith);
    assert(lcg_key(165) == 0x1b285999316afeadu64);
    assert((0x1b285999316afeadnat * 6364136223846793005nat + 1) % 0x1_0000_0000_0000_0000nat == 0x22a8eebc5ad7976anat) by (nonlinear_arith);
    assert(lcg_key(166) == 0x22a8eebc5ad7976au64);
    assert((0x22a8eebc5ad7976anat * 6364136223846793005nat + 1) % 0x1_0000_0000_0000_0000nat == 0x917aee3d84b533a3nat) by (nonlinear_arith);
    assert(lcg_key(167) == 0x917aee3d84b533a3u64);
    assert((0x917aee3d84b533a3nat * 6364136223846793005nat + 1) % 0x1_0000_0000_0000_0000nat == 0xe3a4de18aa56f0a8nat) by (nonlinear_arith);
    assert(lcg_key(168) == 0xe3a4de18aa56f0a8u64);
    assert((0xe3a4de18aa56f0a8nat * 6364136223846793005nat + 1) % 0x1_0000_0000_0000_0000nat == 0x18e6a86b0473a589nat) by (nonlinear_arith);
    assert(lcg_key(169) == 0x18e6a86b0473a589u64);
    assert((0x18e6a86b0473a589nat * 6364136223846793005nat + 1) % 0x1_0000_0000_0000_0000nat == 0x14284b8e2c301016nat) by (nonlinear_arith);
    assert(lcg_key(170) == 0x14284b8e2c301016u64);
}

pub(crate) proof fn lemma_steps_17()
    requires
        lcg_key(170) == 0x14284b8e2c301016u64,
    ensures
        lcg_key(171) == 0xf22c9887813bbddfu64,
        lcg_key(172) == 0x16c5e945117d0134u64,
        lcg_key(173) == 0xef7a551239d60225u64,
        lcg_key(174) == 0x3fdad5989137bb82u64,
        lcg_key(175) == 0x0ffd2ad0e77b73dbu64,
        lcg_key(176) == 0xa378a44d61a40280u64,
        lcg_key(177) == 0x76743abdfb91f081u64,
        lcg_key(178) == 0xd5888d36e60c45aeu64,
        lcg_key(179) == 0xc2eeb030bcff9197u64,
        lcg_key(180) == 0x7a4e89d79309808cu64,
{
    assert((0x14284b8e2c301016nat * 6364136223846793005nat + 1) % 0x1_0000_0000_0000_0000nat == 0xf22c9887813bbddfnat) by (nonlinear_arith);
    assert(lcg_key(171) == 0xf22c9887813bbddfu64);
    assert((0xf22c9887813bbddfnat * 6364136223846793005nat + 1) % 0x1_0000_0000_0000_0000nat == 0x16c5e945117d0134nat) by (nonlinear_arith);
    assert(lcg_key(172) == 0x16c5e945117d0134u64);
    assert((0x16c5e945117d0134nat * 6364136223846793005nat + 1) % 0x1_0000_0000_0000_0000nat == 0xef7a551239d60225nat) by (nonlinear_arith);
    assert(lcg_key(173) == 0xef7a551239d60225u64);
    assert((0xef7a551239d60225nat * 6364136223846793005nat + 1) % 0x1_0000_0000_0000_0000nat == 0x3fdad5989137bb82nat) by (nonlinear_arith);
    assert(lcg_key(174) == 0x3fdad5989137bb82u64);
    assert((0x3fdad5989137bb82nat * 6364136223846793005nat + 1) % 0x1_0000_0000_0000_0000nat == 0x0ffd2ad0e77b73dbnat) by (nonlinear_arith);
    assert(lcg_key(175) == 0x0ffd2ad0e77b73dbu64);
    assert((0x0ffd2ad0e77b73dbnat * 6364136223846793005nat + 1) % 0x1_0000_0000_0000_0000nat == 0xa378a44d61a40280nat) by (nonlinear_arith);
    assert(lcg_key(176) == 0xa378a44d61a40280u64);
    assert((0xa378a44d61a40280nat * 6364136223846793005nat + 1) % 0x1_0000_0000_0000_0000nat == 0x76743abdfb91f081nat) by (nonlinear_arith);
    assert(lcg_key(177) == 0x76743abdfb91f081u64);
    assert((0x76743abdfb91f081nat * 6364136223846793005nat + 1) % 0x1_0000_0000_0000_0000nat == 0xd5888d36e60c45aenat) by (nonlinear_arith);
    assert(lcg_key(178) == 0xd5888d36e60c45aeu64);
    assert((0xd5888d36e60c45aenat * 6364136223846793005nat + 1) % 0x1_0000_0000_0000_0000nat == 0xc2eeb030bcff9197nat) by (nonlinear_arith);
    assert(lcg_key(179) == 0xc2eeb030bcff9197u64);
    assert((0xc2eeb030bcff9197nat * 6364136223846793005nat + 1) % 0x1_0000_0000_0000_0000nat == 0x7a4e89d79309808cnat) by (nonlinear_arith);
    assert(lcg_key(180) == 0x7a4e89d79309808cu64);
}

pub(crate) proof fn lemma_steps_18()
    requires
        lcg_key(180) == 0x7a4e89d79309808cu64,
    ensures
        lcg_key(181) == 0x63cc9c23f0ed0c9du64,
        lcg_key(182) == 0xd83cbc26e64e1a9au64,
        lcg_key(183) == 0x7ad70f846e8f1313u64,
        lcg_key(184) == 0xffbeb66727abc758u64,
        lcg_key(185) == 0x60de3d71574eb279u64,
        lcg_key(186) == 0x1ba8e84b2fcc6646u64,
        lcg_key(187) == 0xd27054901c68b44fu64,
        lcg_key(188) == 0xb743f7c855d5e2e4u64,
        lcg_key(189) == 0xbcf297b8f0dbfe15u64,
        lcg_key(190) == 0x678b982997f114b2u64,
{
    assert((0x7a4e89d79309808cnat * 6364136223846793005nat + 1) % 0x1_0000_0000_0000_0000nat == 0x63cc9c23f0ed0c9dnat) by (nonlinear_arith);
    assert(lcg_key(181) == 0x63cc9c23f0ed0c9du64);
    assert((0x63cc9c23f0ed0c9dnat * 6364136223846793005nat + 1) % 0x1_0000_0000_0000_0000nat == 0xd83cbc26e64e1a9anat) by (nonlinear_arith);
    assert(lcg_key(182) == 0xd83cbc26e64e1a9au64);
    assert((0xd83cbc26e64e1a9anat * 6364136223846793005nat + 1) % 0x1_0000_0000_0000_0000nat == 0x7ad70f846e8f1313nat) by (nonlinear_arith);
    assert(lcg_key(183) == 0x7ad70f846e8f1313u64);
    assert((0x7ad70f846e8f1313nat * 6364136223846793005nat + 1) % 0x1_0000_0000_0000_0000nat == 0xffbeb66727abc758nat) by (nonlinear_arith);
    assert(lcg_key(184) == 0xffbeb66727abc758u64);
    assert((0xffbeb66727abc758nat * 6364136223846793005nat + 1) % 0x1_0000_0000_0000_0000nat == 0x60de3d71574eb279nat) by (nonlinear_arith);
    assert(lcg_key(185) == 0x60de3d71574eb279u64);
    assert((0x60de3d71574eb279nat * 6364136223846793005nat + 1) % 0x1_0000_0000_0000_0000nat == 0x1ba8e84b2fcc6646nat) by (nonlinear_arith);
    assert(lcg_key(186) == 0x1ba8e84b2fcc6646u64);
    assert((0x1ba8e84b2fcc6646nat * 6364136223846793005nat + 1) % 0x1_0000_0000_0000_0000nat == 0xd27054901c68b44fnat) by (nonlinear_arith);
    assert(lcg_key(187) == 0xd27054901c68b44fu64);
    assert((0xd27054901c68b44fnat * 6364136223846793005nat + 1) % 0x1_0000_0000_0000_0000nat == 0xb743f7c855d5e2e4nat) by (nonlinear_arith);
    assert(lcg_key(188) == 0xb743f7c855d5e2e4u64);
    assert((0xb743f7c855d5e2e4nat * 6364136223846793005nat + 1) % 0x1_0000_0000_0000_0000nat == 0xbcf297b8f0dbfe15nat) by (nonlinear_arith);
    assert(lcg_key(189) == 0xbcf297b8f0dbfe15u64);
    assert((0xbcf297b8f0dbfe15nat * 6364136223846793005nat + 1) % 0x1_0000_0000_0000_0000nat == 0x678b982997f114b2nat) by (nonlinear_arith);
    assert(lcg_key(190) == 0x678b982997f114b2u64);
}

pub(crate) proof fn lemma_steps_19()
    requires
        lcg_key(190) == 0x678b982997f114b2u64,
    ensures
        lcg_key(191) == 0x96c3ae70323ef14bu64,
        lcg_key(192) == 0x5dee2719c36b9f30u64,
        lcg_key(193) == 0xdc1a13cfa4d3cb71u64,
        lcg_key(194) == 0xdb16c4ccffecd1deu64,
        lcg_key(195) == 0xa1d40a2986f40607u64,
        lcg_key(196) == 0x80671c4c5df5883cu64,
        lcg_key(197) == 0x227f92ef6daab68du64,
        lcg_key(198) == 0x2bd898d513a309cau64,
        lcg_key(199) == 0xc0a4a7810015ee83u64,
        lcg_key(200) == 0xc0c8c9519b6cea08u64,
{
    assert((0x678b982997f114b2nat * 6364136223846793005nat + 1) % 0x1_0000_0000_0000_0000nat == 0x96c3ae70323ef14bnat) by (nonlinear_arith);
    assert(lcg_key(191) == 0x96c3ae70323ef14bu64);
    assert((0x96c3ae70323ef14bnat * 6364136223846793005nat + 1) % 0x1_0000_0000_0000_0000nat == 0x5dee2719c36b9f30nat) by (nonlinear_arith);
    assert(lcg_key(192) == 0x5dee2719c36b9f30u64);
    assert((0x5dee2719c36b9f30nat * 6364136223846793005nat + 1) % 0x1_0000_0000_0000_0000nat == 0xdc1a13cfa4d3cb71nat) by (nonlinear_arith);
    assert(lcg_key(193) == 0xdc1a13cfa4d3cb71u64);
    assert((0xdc1a13cfa4d3cb71nat * 6364136223846793005nat + 1) % 0x1_0000_0000_0000_0000nat == 0xdb16c4ccffecd1denat) by (nonlinear_arith);
    assert(lcg_key(194) == 0xdb16c4ccffecd1deu64);
    assert((0xdb16c4ccffecd1denat * 6364136223846793005nat + 1) % 0x1_0000_0000_0000_0000nat == 0xa1d40a2986f40607nat) by (nonlinear_arith);
    assert(lcg_key(195) == 0xa1d40a2986f40607u64);
    assert((0xa1d40a2986f40607nat * 6364136223846793005nat + 1) % 0x1_0000_0000_0000_0000nat == 0x80671c4c5df5883cnat) by (nonlinear_arith);
    assert(lcg_key(196) == 0x80671c4c5df5883cu64);
    assert((0x80671c4c5df5883cnat * 6364136223846793005nat + 1) % 0x1_0000_0000_0000_0000nat == 0x227f92ef6daab68dnat) by (nonlinear_arith);
    assert(lcg_key(197) == 0x227f92ef6daab68du64);
    assert((0x227f92ef6daab68dnat * 6364136223846793005nat + 1) % 0x1_0000_0000_0000_0000nat == 0x2bd898d513a309canat) by (nonlinear_arith);
    assert(lcg_key(198) == 0x2bd898d513a309cau64);
    assert((0x2bd898d513a309canat * 6364136223846793005nat + 1) % 0x1_0000_0000_0000_0000nat == 0xc0a4a7810015ee83nat) by (nonlinear_arith);
    assert(lcg_key(199) == 0xc0a4a7810015ee83u64);
    assert((0xc0a4a7810015ee83nat * 6364136223846793005nat + 1) % 0x1_0000_0000_0000_0000nat == 0xc0c8c9519b6cea08nat) by (nonlinear_arith);
    assert(lcg_key(200) == 0xc0c8c9519b6cea08u64);
}

pub(crate) proof fn lemma_steps_20()
    requires
        lcg_key(200) == 0xc0c8c9519b6cea08u64,
    ensures
        lcg_key(201) == 0xd38b6eb9f0e71b69u64,
        lcg_key(202) == 0x64276d4d1f55e876u64,
        lcg_key(203) == 0x2e588bdb751a66bfu64,
        lcg_key(204) == 0x8a728f1d2fc7d094u64,
        lcg_key(205) == 0xd90f7e11dcbd1605u64,
        lcg_key(206) == 0x3b00451de81259e2u64,
        lcg_key(207) == 0x060ab67a4e5aeabbu64,
        lcg_key(208) == 0xdfbbd7d8034507e0u64,
        lcg_key(209) == 0x224f627be76a8261u64,
        lcg_key(210) == 0x4f4f765532dc0a0eu64,
{
    assert((0xc0c8c9519b6cea08nat * 6364136223846793005nat + 1) % 0x1_0000_0000_0000_0000nat == 0xd38b6eb9f0e71b69nat) by (nonlinear_arith);
    assert(lcg_key(201) == 0xd38b6eb9f0e71b69u64);
    assert((0xd38b6eb9f0e71b69nat * 6364136223846793005nat + 1) % 0x1_0000_0000_0000_0000nat == 0x64276d4d1f55e876nat) by (nonlinear_arith);
    assert(lcg_key(202) == 0x64276d4d1f55e876u64);
    assert((0x64276d4d1f55e876nat * 6364136223846793005nat + 1) % 0x1_0000_0000_0000_0000nat == 0x2e588bdb751a66bfnat) by (nonlinear_arith);
    assert(lcg_key(203) == 0x2e588bdb751a66bfu64);
    assert((0x2e588bdb751a66bfnat * 6364136223846793005nat + 1) % 0x1_0000_0000_0000_0000nat == 0x8a728f1d2fc7d094nat) by (nonlinear_arith);
    assert(lcg_key(204) == 0x8a728f1d2fc7d094u64);
    assert((0x8a728f1d2fc7d094nat * 6364136223846793005nat + 1) % 0x1_0000_0000_0000_0000nat == 0xd90f7e11dcbd1605nat) by (nonlinear_arith);
    assert(lcg_key(205) == 0xd90f7e11dcbd1605u64);
    assert((0xd90f7e11dcbd1605nat * 6364136223846793005nat + 1) % 0x1_0000_0000_0000_0000nat == 0x3b00451de81259e2nat) by (nonlinear_arith);
    assert(lcg_key(206) == 0x3b00451de81259e2u64);
    assert((0x3b00451de81259e2nat * 6364136223846793005nat + 1) % 0x1_0000_0000_0000_0000nat == 0x060ab67a4e5aeabbnat) by (nonlinear_arith);
    assert(lcg_key(207) == 0x060ab67a4e5aeabbu64);
    assert((0x060ab67a4e5aeabbnat * 6364136223846793005nat + 1) % 0x1_0000_0000_0000_0000nat == 0xdfbbd7d8034507e0nat) by (nonlinear_arith);
    assert(lcg_key(208) == 0xdfbbd7d8034507e0u64);
    assert((0xdfbbd7d8034507e0nat * 6364136223846793005nat + 1) % 0x1_0000_0000_0000_0000nat == 0x224f627be76a8261nat) by (nonlinear_arith);
    assert(lcg_key(209) == 0x224f627be76a8261u64);
    assert((0x224f627be76a8261nat * 6364136223846793005nat + 1) % 0x1_0000_0000_0000_0000nat == 0x4f4f765532dc0a0enat) by (nonlinear_arith);
    assert(lcg_key(210) == 0x4f4f765532dc0a0eu64);
}

pub(crate) proof fn lemma_steps_21()
    requires
        lcg_key(210) == 0x4f4f765532dc0a0eu64,
    ensures
        lcg_key(211) == 0x300d1ab91bd0b677u64,
        lcg_key(212) == 0xe9cf2ce6f5781becu64,
        lcg_key(213) == 0x2a63d80e0c52fc7du64,
        lcg_key(214) == 0x065c47d0669964fau64,
        lcg_key(215) == 0xb0e94bbc1f90c5f3u64,
        lcg_key(216) == 0x76736578b91558b8u64,
        lcg_key(217) == 0x2b5dc22562dbe059u64,
        lcg_key(218) == 0xc28bc0d674bf96a6u64,
        lcg_key(219) == 0x4a7fd1078807d52fu64,
        lcg_key(220) == 0x635f3fead47dca44u64,
{
    assert((0x4f4f765532dc0a0enat * 6364136223846793005nat + 1) % 0x1_0000_0000_0000_0000nat == 0x300d1ab91bd0b677nat) by (nonlinear_arith);
    assert(lcg_key(211) == 0x300d1ab91bd0b677u64);
    assert((0x300d1ab91bd0b677nat * 6364136223846793005nat + 1) % 0x1_0000_0000_0000_0000nat == 0xe9cf2ce6f5781becnat) by (nonlinear_arith);
    assert(lcg_key(212) == 0xe9cf2ce6f5781becu64);
    assert((0xe9cf2ce6f5781becnat * 6364136223846793005nat + 1) % 0x1_0000_0000_0000_0000nat == 0x2a63d80e0c52fc7dnat) by (nonlinear_arith);
    assert(lcg_key(213) == 0x2a63d80e0c52fc7du64);
    assert((0x2a63d80e0c52fc7dnat * 6364136223846793005nat + 1) % 0x1_0000_0000_0000_0000nat == 0x065c47d0669964fanat) by (nonlinear_arith);
    assert(lcg_key(214) == 0x065c47d0669964fau64);
    assert((0x065c47d0669964fanat * 6364136223846793005nat + 1) % 0x1_0000_0000_0000_0000nat == 0xb0e94bbc1f90c5f3nat) by (nonlinear_arith);
    assert(lcg_key(215) == 0xb0e94bbc1f90c5f3u64);
    assert((0xb0e94bbc1f90c5f3nat * 6364136223846793005nat + 1) % 0x1_0000_0000_0000_0000nat == 0x76736578b91558b8nat) by (nonlinear_arith);
    assert(lcg_key(216) == 0x76736578b91558b8u64);
    assert((0x76736578b91558b8nat * 6364136223846793005nat + 1) % 0x1_0000_0000_0000_0000nat == 0x2b5dc22562dbe059nat) by (nonlinear_arith);
    assert(lcg_key(217) == 0x2b5dc22562dbe059u64);
    assert((0x2b5dc22562dbe059nat * 6364136223846793005nat + 1) % 0x1_0000_0000_0000_0000nat == 0xc28bc0d674bf96a6nat) by (nonlinear_arith);
    assert(lcg_key(218) == 0xc28bc0d674bf96a6u64);
    assert((0xc28bc0d674bf96a6nat * 6364136223846793005nat + 1) % 0x1_0000_0000_0000_0000nat == 0x4a7fd1078807d52fnat) by (nonlinear_arith);
    assert(lcg_key(219) == 0x4a7fd1078807d52fu64);
    assert((0x4a7fd1078807d52fnat * 6364136223846793005nat + 1) % 0x1_0000_0000_0000_0000nat == 0x635f3fead47dca44nat) by (nonlinear_arith);
    assert(lcg_key(220) == 0x635f3fead47dca44u64);
}

pub(crate) proof fn lemma_steps_22()
    requires
        lcg_key(220) == 0x635f3fead47dca44u64,
    ensures
        lcg_key(221) == 0x41a01ee8ab0849f5u64,
        lcg_key(222) == 0x9e246197f4be8b12u64,
        lcg_key(223) == 0x95a7287ad5f6602bu64,
        lcg_key(224) == 0xe80d9e3e930b3c90u64,
        lcg_key(225) == 0x723bacc76bd51551u64,
        lcg_key(226) == 0x16b046231e2cee3eu64,
        lcg_key(227) == 0x81c49febaa2ca2e7u64,
        lcg_key(228) == 0xcdc920cb731c3b9cu64,
        lcg_key(229) == 0x11593d6b3f54de6du64,
        lcg_key(230) == 0xc6c90bdc0db42c2au64,
{
    assert((0x635f3fead47dca44nat * 6364136223846793005nat + 1) % 0x1_0000_0000_0000_0000nat == 0x41a01ee8ab0849f5nat) by (nonlinear_arith);
    assert(lcg_key(221) == 0x41a01ee8ab0849f5u64);
    assert((0x41a01ee8ab0849f5nat * 6364136223846793005nat + 1) % 0x1_0000_0000_0000_0000nat == 0x9e246197f4be8b12nat) by (nonlinear_arith);
    assert(lcg_key(222) == 0x9e246197f4be8b12u64);
    assert((0x9e246197f4be8b12nat * 6364136223846793005nat + 1) % 0x1_0000_0000_0000_0000nat == 0x95a7287ad5f6602bnat) by (nonlinear_arith);
    assert(lcg_key(223) == 0x95a7287ad5f6602bu64);
    assert((0x95a7287ad5f6602bnat * 6364136223846793005nat + 1) % 0x1_0000_0000_0000_0000nat == 0xe80d9e3e930b3c90nat) by (nonlinear_arith);
    assert(lcg_key(224) == 0xe80d9e3e930b3c90u64);
    assert((0xe80d9e3e930b3c90nat * 6364136223846793005nat + 1) % 0x1_0000_0000_0000_0000nat == 0x723bacc76bd51551nat) by (nonlinear_arith);
    assert(lcg_key(225) == 0x723bacc76bd51551u64);
    assert((0x723bacc76bd51551nat * 6364136223846793005nat + 1) % 0x1_0000_0000_0000_0000nat == 0x16b046231e2cee3enat) by (nonlinear_arith);
    assert(lcg_key(226) == 0x16b046231e2cee3eu64);
    assert((0x16b046231e2cee3enat * 6364136223846793005nat + 1) % 0x1_0000_0000_0000_0000nat == 0x81c49febaa2ca2e7nat) by (nonlinear_arith);
    assert(lcg_key(227) == 0x81c49febaa2ca2e7u64);
    assert((0x81c49febaa2ca2e7nat * 6364136223846793005nat + 1) % 0x1_0000_0000_0000_0000nat == 0xcdc920cb731c3b9cnat) by (nonlinear_arith);
    assert(lcg_key(228) == 0xcdc920cb731c3b9cu64);
    assert((0xcdc920cb731c3b9cnat * 6364136223846793005nat + 1) % 0x1_0000_0000_0000_0000nat == 0x11593d6b3f54de6dnat) by (nonlinear_arith);
    assert(lcg_key(229) == 0x11593d6b3f54de6du64);
    assert((0x11593d6b3f54de6dnat * 6364136223846793005nat + 1) % 0x1_0000_0000_0000_0000nat == 0xc6c90bdc0db42c2anat) by (nonlinear_arith);
    assert(lcg_key(230) == 0xc6c90bdc0db42c2au64);
}

pub(crate) proof fn lemma_steps_23()
    requires
        lcg_key(230) == 0xc6c90bdc0db42c2au64,
    ensures
        lcg_key(231) == 0x756c82d6f7069963u64,
        lcg_key(232) == 0xb81db31d5ce01368u64,
        lcg_key(233) == 0xda882ab2a88c0149u64,
        lcg_key(234) == 0x6d129ab880bc70d6u64,
        lcg_key(235) == 0xbb03671751a7ff9fu64,
        lcg_key(236) == 0x80089239ade2cff4u64,
        lcg_key(237) == 0x6884fa0a8f0c99e5u64,
        lcg_key(238) == 0x93628218f3d8a842u64,
        lcg_key(239) == 0x321bfa02def8519bu64,
        lcg_key(240) == 0x0748f21ee5593d40u64,
{
    assert((0xc6c90bdc0db42c2anat * 6364136223846793005nat + 1) % 0x1_0000_0000_0000_0000nat == 0x756c82d6f7069963nat) by (nonlinear_arith);
    assert(lcg_key(231) == 0x756c82d6f7069963u64);
    assert((0x756c82d6f7069963nat * 6364136223846793005nat + 1) % 0x1_0000_0000_0000_0000nat == 0xb81db31d5ce01368nat) by (nonlinear_arith);
    assert(lcg_key(232) == 0xb81db31d5ce01368u64);
    assert((0xb81db31d5ce01368nat * 6364136223846793005nat + 1) % 0x1_0000_0000_0000_0000nat == 0xda882ab2a88c0149nat) by (nonlinear_arith);
    assert(lcg_key(233) == 0xda882ab2a88c0149u64);
    assert((0xda882ab2a88c0149nat * 6364136223846793005nat + 1) % 0x1_0000_0000_0000_0000nat == 0x6d129ab880bc70d6nat) by (nonlinear_arith);
    assert(lcg_key(234) == 0x6d129ab880bc70d6u64);
    assert((0x6d129ab880bc70d6nat * 6364136223846793005nat + 1) % 0x1_0000_0000_0000_0000nat == 0xbb03671751a7ff9fnat) by (nonlinear_arith);
    assert(lcg_key(235) == 0xbb03671751a7ff9fu64);
    assert((0xbb03671751a7ff9fnat * 6364136223846793005nat + 1) % 0x1_0000_0000_0000_0000nat == 0x80089239ade2cff4nat) by (nonlinear_arith);
    assert(lcg_key(236) == 0x80089239ade2cff4u64);
    assert((0x80089239ade2cff4nat * 6364136223846793005nat + 1) % 0x1_0000_0000_0000_0000nat == 0x6884fa0a8f0c99e5nat) by (nonlinear_arith);
    assert(lcg_key(237) == 0x6884fa0a8f0c99e5u64);
    assert((0x6884fa0a8f0c99e5nat * 6364136223846793005nat + 1) % 0x1_0000_0000_0000_0000nat == 0x93628218f3d8a842nat) by (nonlinear_arith);
    assert(lcg_key(238) == 0x93628218f3d8a842u64);
    assert((0x93628218f3d8a842nat * 6364136223846793005nat + 1) % 0x1_0000_0000_0000_0000nat == 0x321bfa02def8519bnat) by (nonlinear_arith);
    assert(lcg_key(239) == 0x321bfa02def8519bu64);
    assert((0x321bfa02def8519bnat * 6364136223846793005nat + 1) % 0x1_0000_0000_0000_0000nat == 0x0748f21ee5593d40nat) by (nonlinear_arith);
    assert(lcg_key(240) == 0x0748f21ee5593d40u64);
}

pub(crate) proof fn lemma_steps_24()
    requires
        lcg_key(240) == 0x0748f21ee5593d40u64,
    ensures
        lcg_key(241) == 0x5052a2953c528441u64,
        lcg_key(242) == 0x7d136bdfcff27e6eu64,
        lcg_key(243) == 0x58dd1583185ecb57u64,
        lcg_key(244) == 0x9e11cef77d2ce74cu64,
        lcg_key(245) == 0xaa6870c376df5c5du64,
        lcg_key(246) == 0x68142a1a12365f5au64,
        lcg_key(247) == 0xaced9e64643e68d3u64,
        lcg_key(248) == 0x132e0de93bc81a18u64,
        lcg_key(249) == 0x4b21d01617167e39u64,
        lcg_key(250) == 0xae2e2aeb9abf7706u64,
{
    assert((0x0748f21ee5593d40nat * 6364136223846793005nat + 1) % 0x1_0000_0000_0000_0000nat == 0x5052a2953c528441nat) by (nonlinear_arith);
    assert(lcg_key(241) == 0x5052a2953c528441u64);
    assert((0x5052a2953c528441nat * 6364136223846793005nat + 1) % 0x1_0000_0000_0000_0000nat == 0x7d136bdfcff27e6enat) by (nonlinear_arith);
    assert(lcg_key(242) == 0x7d136bdfcff27e6eu64);
    assert((0x7d136bdfcff27e6enat * 6364136223846793005nat + 1) % 0x1_0000_0000_0000_0000nat == 0x58dd1583185ecb57nat) by (nonlinear_arith);
    assert(lcg_key(243) == 0x58dd1583185ecb57u64);
    assert((0x58dd1583185ecb57nat * 6364136223846793005nat + 1) % 0x1_0000_0000_0000_0000nat == 0x9e11cef77d2ce74cnat) by (nonlinear_arith);
    assert(lcg_key(244) == 0x9e11cef77d2ce74cu64);
    assert((0x9e11cef77d2ce74cnat * 6364136223846793005nat + 1) % 0x1_0000_0000_0000_0000nat == 0xaa6870c376df5c5dnat) by (nonlinear_arith);
    assert(lcg_key(245) == 0xaa6870c376df5c5du64);
    assert((0xaa6870c376df5c5dnat * 6364136223846793005nat + 1) % 0x1_0000_0000_0000_0000nat == 0x68142a1a12365f5anat) by (nonlinear_arith);
    assert(lcg_key(246) == 0x68142a1a12365f5au64);
    assert((0x68142a1a12365f5anat * 6364136223846793005nat + 1) % 0x1_0000_0000_0000_0000nat == 0xaced9e64643e68d3nat) by (nonlinear_arith);
    assert(lcg_key(247) == 0xaced9e64643e68d3u64);
    assert((0xaced9e64643e68d3nat * 6364136223846793005nat + 1) % 0x1_0000_0000_0000_0000nat == 0x132e0de93bc81a18nat) by (nonlinear_arith);
    assert(lcg_key(248) == 0x132e0de93bc81a18u64);
    assert((0x132e0de93bc81a18nat * 6364136223846793005nat + 1) % 0x1_0000_0000_0000_0000nat == 0x4b21d01617167e39nat) by (nonlinear_arith);
    assert(lcg_key(249) == 0x4b21d01617167e39u64);
    assert((0x4b21d01617167e39nat * 6364136223846793005nat + 1) % 0x1_0000_0000_0000_0000nat == 0xae2e2aeb9abf7706nat) by (nonlinear_arith);
    assert(lcg_key(250) == 0xae2e2aeb9abf7706u64);
}

pub(crate) proof fn lemma_steps_25()
    requires
        lcg_key(250) == 0xae2e2aeb9abf7706u64,
    ensures
        lcg_key(251) == 0xdc79fa033e31e60fu64,
        lcg_key(252) == 0x2f9d4e670aa1e1a4u64,
        lcg_key(253) == 0x90161f6c31d905d5u64,
        lcg_key(254) == 0x6359ae3c0e03b172u64,
        lcg_key(255) == 0x822985606b07bf0bu64,
        lcg_key(256) == 0x2849f0341d8a09f0u64,
        lcg_key(257) == 0x71efbf4bb4e1cf31u64,
        lcg_key(258) == 0x337b9f97f4ffba9eu64,
        lcg_key(259) == 0x8be55a45747e2fc7u64,
        lcg_key(260) == 0xcdcaa89bf6b51efcu64,
{
    assert((0xae2e2aeb9abf7706nat * 6364136223846793005nat + 1) % 0x1_0000_0000_0000_0000nat == 0xdc79fa033e31e60fnat) by (nonlinear_arith);
    assert(lcg_key(251) == 0xdc79fa033e31e60fu64);
    assert((0xdc79fa033e31e60fnat * 6364136223846793005nat + 1) % 0x1_0000_0000_0000_0000nat == 0x2f9d4e670aa1e1a4nat) by (nonlinear_arith);
    assert(lcg_key(252) == 0x2f9d4e670aa1e1a4u64);
    assert((0x2f9d4e670aa1e1a4nat * 6364136223846793005nat + 1) % 0x1_0000_0000_0000_0000nat == 0x90161f6c31d905d5nat) by (nonlinear_arith);
    assert(lcg_key(253) == 0x90161f6c31d905d5u64);
    assert((0x90161f6c31d905d5nat * 6364136223846793005nat + 1) % 0x1_0000_0000_0000_0000nat == 0x6359ae3c0e03b172nat) by (nonlinear_arith);
    assert(lcg_key(254) == 0x6359ae3c0e03b172u64);
    assert((0x6359ae3c0e03b172nat * 6364136223846793005nat + 1) % 0x1_0000_0000_0000_0000nat == 0x822985606b07bf0bnat) by (nonlinear_arith);
    assert(lcg_key(255) == 0x822985606b07bf0bu64);
    assert((0x822985606b07bf0bnat * 6364136223846793005nat + 1) % 0x1_0000_0000_0000_0000nat == 0x2849f0341d8a09f0nat) by (nonlinear_arith);
    assert(lcg_key(256) == 0x2849f0341d8a09f0u64);
    assert((0x2849f0341d8a09f0nat * 6364136223846793005nat + 1) % 0x1_0000_0000_0000_0000nat == 0x71efbf4bb4e1cf31nat) by (nonlinear_arith);
    assert(lcg_key(257) == 0x71efbf4bb4e1cf31u64);
    assert((0x71efbf4bb4e1cf31nat * 6364136223846793005nat + 1) % 0x1_0000_0000_0000_0000nat == 0x337b9f97f4ffba9enat) by (nonlinear_arith);
    assert(lcg_key(258) == 0x337b9f97f4ffba9eu64);
    assert((0x337b9f97f4ffba9enat * 6364136223846793005nat + 1) % 0x1_0000_0000_0000_0000nat == 0x8be55a45747e2fc7nat) by (nonlinear_arith);
    assert(lcg_key(259) == 0x8be55a45747e2fc7u64);
    assert((0x8be55a45747e2fc7nat * 6364136223846793005nat + 1) % 0x1_0000_0000_0000_0000nat == 0xcdcaa89bf6b51efcnat) by (nonlinear_arith);
    assert(lcg_key(260) == 0xcdcaa89bf6b51efcu64);
}

pub(crate) proof fn lemma_steps_26()
    requires
        lcg_key(260) == 0xcdcaa89bf6b51efcu64,
    ensures
        lcg_key(261) == 0x936401b810e1764du64,
        lcg_key(262) == 0xed538f9c8822fe8au64,
        lcg_key(263) == 0x7ce0cc3e68bf3443u64,
        lcg_key(264) == 0x18e1a38393886cc8u64,
        lcg_key(265) == 0xad1b222c4d5a5729u64,
        lcg_key(266) == 0x4e6639d350fba936u64,
        lcg_key(267) == 0x164b0e85999c887fu64,
        lcg_key(268) == 0x4f8ebfa4ce25ff54u64,
        lcg_key(269) == 0x62e7a7eba23c8dc5u64,
        lcg_key(270) == 0xce6f80dd8ea2a6a2u64,
{
    assert((0xcdcaa89bf6b51efcnat * 6364136223846793005nat + 1) % 0x1_0000_0000_0000_0000nat == 0x936401b810e1764dnat) by (nonlinear_arith);
    assert(lcg_key(261) == 0x936401b810e1764du64);
    assert((0x936401b810e1764dnat * 6364136223846793005nat + 1) % 0x1_0000_0000_0000_0000nat == 0xed538f9c8822fe8anat) by (nonlinear_arith);
    assert(lcg_key(262) == 0xed538f9c8822fe8au64);
    assert((0xed538f9c8822fe8anat * 6364136223846793005nat + 1) % 0x1_0000_0000_0000_0000nat == 0x7ce0cc3e68bf3443nat) by (nonlinear_arith);
    assert(lcg_key(263) == 0x7ce0cc3e68bf3443u64);
    assert((0x7ce0cc3e68bf3443nat * 6364136223846793005nat + 1) % 0x1_0000_0000_0000_0000nat == 0x18e1a38393886cc8nat) by (nonlinear_arith);
    assert(lcg_key(264) == 0x18e1a38393886cc8u64);
    assert((0x18e1a38393886cc8nat * 6364136223846793005nat + 1) % 0x1_0000_0000_0000_0000nat == 0xad1b222c4d5a5729nat) by (nonlinear_arith);
    assert(lcg_key(265) == 0xad1b222c4d5a5729u64);
    assert((0xad1b222c4d5a5729nat * 6364136223846793005nat + 1) % 0x1_0000_0000_0000_0000nat == 0x4e6639d350fba936nat) by (nonlinear_arith);
    assert(lcg_key(266) == 0x4e6639d350fba936u64);
    assert((0x4e6639d350fba936nat * 6364136223846793005nat + 1) % 0x1_0000_0000_0000_0000nat == 0x164b0e85999c887fnat) by (nonlinear_arith);
    assert(lcg_key(267) == 0x164b0e85999c887fu64);
    assert((0x164b0e85999c887fnat * 6364136223846793005nat + 1) % 0x1_0000_0000_0000_0000nat == 0x4f8ebfa4ce25ff54nat) by (nonlinear_arith);
    assert(lcg_key(268) == 0x4f8ebfa4ce25ff54u64);
    assert((0x4f8ebfa4ce25ff54nat * 6364136223846793005nat + 1) % 0x1_0000_0000_0000_0000nat == 0x62e7a7eba23c8dc5nat) by (nonlinear_arith);
    assert(lcg_key(269) == 0x62e7a7eba23c8dc5u64);
    assert((0x62e7a7eba23c8dc5nat * 6364136223846793005nat + 1) % 0x1_0000_0000_0000_0000nat == 0xce6f80dd8ea2a6a2nat) by (nonlinear_arith);
    assert(lcg_key(270) == 0xce6f80dd8ea2a6a2u64);
}

pub(crate) proof fn lemma_steps_27()
    requires
        lcg_key(270) == 0xce6f80dd8ea2a6a2u64,
    ensures
        lcg_key(271) == 0xe47f9151d78ba87bu64,
        lcg_key(272) == 0xeb30e93dbfb8a2a0u64,
        lcg_key(273) == 0xd43f1ed57341f621u64,
        lcg_key(274) == 0x4978b1f608e7a2ceu64,
        lcg_key(275) == 0x146a40076461d037u64,
        lcg_key(276) == 0x6b986882af7fe2acu64,
        lcg_key(277) == 0xbbc018ff490a2c3du64,
        lcg_key(278) == 0x23b07ce2be3d09bau64,
        lcg_key(279) == 0x7647465799cffbb3u64,
        lcg_key(280) == 0x8a2bf1f1da9c0b78u64,
{
    assert((0xce6f80dd8ea2a6a2nat * 6364136223846793005nat + 1) % 0x1_0000_0000_0000_0000nat == 0xe47f9151d78ba87bnat) by (nonlinear_arith);
    assert(lcg_key(271) == 0xe47f9151d78ba87bu64);
    assert((0xe47f9151d78ba87bnat * 6364136223846793005nat + 1) % 0x1_0000_0000_0000_0000nat == 0xeb30e93dbfb8a2a0nat) by (nonlinear_arith);
    assert(lcg_key(272) == 0xeb30e93dbfb8a2a0u64);
    assert((0xeb30e93dbfb8a2a0nat * 6364136223846793005nat + 1) % 0x1_0000_0000_0000_0000nat == 0xd43f1ed57341f621nat) by (nonlinear_arith);
    assert(lcg_key(273) == 0xd43f1ed57341f621u64);
    assert((0xd43f1ed57341f621nat * 6364136223846793005nat + 1) % 0x1_0000_0000_0000_0000nat == 0x4978b1f608e7a2cenat) by (nonlinear_arith);
    assert(lcg_key(274) == 0x4978b1f608e7a2ceu64);
    assert((0x4978b1f608e7a2cenat * 6364136223846793005nat + 1) % 0x1_0000_0000_0000_0000nat == 0x146a40076461d037nat) by (nonlinear_arith);
    assert(lcg_key(275) == 0x146a40076461d037u64);
    assert((0x146a40076461d037nat * 6364136223846793005nat + 1) % 0x1_0000_0000_0000_0000nat == 0x6b986882af7fe2acnat) by (nonlinear_arith);
    assert(lcg_key(276) == 0x6b986882af7fe2acu64);
    assert((0x6b986882af7fe2acnat * 6364136223846793005nat + 1) % 0x1_0000_0000_0000_0000nat == 0xbbc018ff490a2c3dnat) by (nonlinear_arith);
    assert(lcg_key(277) == 0xbbc018ff490a2c3du64);
    assert((0xbbc018ff490a2c3dnat * 6364136223846793005nat + 1) % 0x1_0000_0000_0000_0000nat == 0x23b07ce2be3d09banat) by (nonlinear_arith);
    assert(lcg_key(278) == 0x23b07ce2be3d09bau64);
    assert((0x23b07ce2be3d09banat * 6364136223846793005nat + 1) % 0x1_0000_0000_0000_0000nat == 0x7647465799cffbb3nat) by (nonlinear_arith);
    assert(lcg_key(279) == 0x7647465799cffbb3u64);
    assert((0x7647465799cffbb3nat * 6364136223846793005nat + 1) % 0x1_0000_0000_0000_0000nat == 0x8a2bf1f1da9c0b78nat) by (nonlinear_arith);
    assert(lcg_key(280) == 0x8a2bf1f1da9c0b78u64);
}

pub(crate) proof fn lemma_steps_28()
    requires
        lcg_key(280) == 0x8a2bf1f1da9c0b78u64,
    ensures
        lcg_key(281) == 0xbebf774923f68c19u64,
        lcg_key(282) == 0xe3dbd52e98640766u64,
        lcg_key(283) == 0x8dab8022ff9ee6efu64,
        lcg_key(284) == 0x90a23b05209a2904u64,
        lcg_key(285) == 0xcbeaaeae44c631b5u64,
        lcg_key(286) == 0x9d3e47ae13d887d2u64,
        lcg_key(287) == 0xf7add2b54dab0debu64,
        lcg_key(288) == 0x1b5b666660c00750u64,
        lcg_key(289) == 0xfe36a4fe46f1f911u64,
        lcg_key(290) == 0x10d242a885fd36feu64,
{
    assert((0x8a2bf1f1da9c0b78nat * 6364136223846793005nat + 1) % 0x1_0000_0000_0000_0000nat == 0xbebf774923f68c19nat) by (nonlinear_arith);
    assert(lcg_key(281) == 0xbebf774923f68c19u64);
    assert((0xbebf774923f68c19nat * 6364136223846793005nat + 1) % 0x1_0000_0000_0000_0000nat == 0xe3dbd52e98640766nat) by (nonlinear_arith);
    assert(lcg_key(282) == 0xe3dbd52e98640766u64);
    assert((0xe3dbd52e98640766nat * 6364136223846793005nat + 1) % 0x1_0000_0000_0000_0000nat == 0x8dab8022ff9ee6efnat) by (nonlinear_arith);
    assert(lcg_key(283) == 0x8dab8022ff9ee6efu64);
    assert((0x8dab8022ff9ee6efnat * 6364136223846793005nat + 1) % 0x1_0000_0000_0000_0000nat == 0x90a23b05209a2904nat) by (nonlinear_arith);
    assert(lcg_key(284) == 0x90a23b05209a2904u64);
    assert((0x90a23b05209a2904nat * 6364136223846793005nat + 1) % 0x1_0000_0000_0000_0000nat == 0xcbeaaeae44c631b5nat) by (nonlinear_arith);
    assert(lcg_key(285) == 0xcbeaaeae44c631b5u64);
    assert((0xcbeaaeae44c631b5nat * 6364136223846793005nat + 1) % 0x1_0000_0000_0000_0000nat == 0x9d3e47ae13d887d2nat) by (nonlinear_arith);
    assert(lcg_key(286) == 0x9d3e47ae13d887d2u64);
    assert((0x9d3e47ae13d887d2nat * 6364136223846793005nat + 1) % 0x1_0000_0000_0000_0000nat == 0xf7add2b54dab0debnat) by (nonlinear_arith);
    assert(lcg_key(287) == 0xf7add2b54dab0debu64);
    assert((0xf7add2b54dab0debnat * 6364136223846793005nat + 1) % 0x1_0000_0000_0000_0000nat == 0x1b5b666660c00750nat) by (nonlinear_arith);
    assert(lcg_key(288) == 0x1b5b666660c00750u64);
    assert((0x1b5b666660c00750nat * 6364136223846793005nat + 1) % 0x1_0000_0000_0000_0000nat == 0xfe36a4fe46f1f911nat) by (nonlinear_arith);
    assert(lcg_key(289) == 0xfe36a4fe46f1f911u64);
    assert((0xfe36a4fe46f1f911nat * 6364136223846793005nat + 1) % 0x1_0000_0000_0000_0000nat == 0x10d242a885fd36fenat) by (nonlinear_arith);
    assert(lcg_key(290) == 0x10d242a885fd36feu64);
}

pub(crate) proof fn lemma_steps_29()
    requires
        lcg_key(290) == 0x10d242a885fd36feu64,
    ensures
        lcg_key(291) == 0xb42f3d7295a0aca7u64,
        lcg_key(292) == 0x5e8af4801418325cu64,
        lcg_key(293) == 0x0997efb028c87e2du64,
        lcg_key(294) == 0x84feda426e0780eau64,
        lcg_key(295) == 0x48a248089077bf23u64,
        lcg_key(296) == 0xc76f80c4703df628u64,
        lcg_key(297) == 0x0f4d34629d4a1d09u64,
        lcg_key(298) == 0x53335cb3fcab9196u64,
        lcg_key(299) == 0x102b246ecbb0015fu64,
        lcg_key(300) == 0xfdeaf6121ee95eb4u64,
{
    assert((0x10d242a885fd36fenat * 6364136223846793005nat + 1) % 0x1_0000_0000_0000_0000nat == 0xb42f3d7295a0aca7nat) by (nonlinear_arith);
    assert(lcg_key(291) == 0xb42f3d7295a0aca7u64);
    assert((0xb42f3d7295a0aca7nat * 6364136223846793005nat + 1) % 0x1_0000_0000_0000_0000nat == 0x5e8af4801418325cnat) by (nonlinear_arith);
    assert(lcg_key(292) == 0x5e8af4801418325cu64);
    assert((0x5e8af4801418325cnat * 6364136223846793005nat + 1) % 0x1_0000_0000_0000_0000nat == 0x0997efb028c87e2dnat) by (nonlinear_arith);
    assert(lcg_key(293) == 0x0997efb028c87e2du64);
    assert((0x0997efb028c87e2dnat * 6364136223846793005nat + 1) % 0x1_0000_0000_0000_0000nat == 0x84feda426e0780eanat) by (nonlinear_arith);
    assert(lcg_key(294) == 0x84feda426e0780eau64);
    assert((0x84feda426e0780eanat * 6364136223846793005nat + 1) % 0x1_0000_0000_0000_0000nat == 0x48a248089077bf23nat) by (nonlinear_arith);
    assert(lcg_key(295) == 0x48a248089077bf23u64);
    assert((0x48a248089077bf23nat * 6364136223846793005nat + 1) % 0x1_0000_0000_0000_0000nat == 0xc76f80c4703df628nat) by (nonlinear_arith);
    assert(lcg_key(296) == 0xc76f80c4703df628u64);
    assert((0xc76f80c4703df628nat * 6364136223846793005nat + 1) % 0x1_0000_0000_0000_0000nat == 0x0f4d34629d4a1d09nat) by (nonlinear_arith);
    assert(lcg_key(297) == 0x0f4d34629d4a1d09u64);
    assert((0x0f4d34629d4a1d09nat * 6364136223846793005nat + 1) % 0x1_0000_0000_0000_0000nat == 0x53335cb3fcab9196nat) by (nonlinear_arith);
    assert(lcg_key(298) == 0x53335cb3fcab9196u64);
    assert((0x53335cb3fcab9196nat * 6364136223846793005nat + 1) % 0x1_0000_0000_0000_0000nat == 0x102b246ecbb0015fnat) by (nonlinear_arith);
    assert(lcg_key(299) == 0x102b246ecbb0015fu64);
    assert((0x102b246ecbb0015fnat * 6364136223846793005nat + 1) % 0x1_0000_0000_0000_0000nat == 0xfdeaf6121ee95eb4nat) by (nonlinear_arith);
    assert(lcg_key(300) == 0xfdeaf6121ee95eb4u64);
}

pub(crate) proof fn lemma_steps_30()
    requires
        lcg_key(300) == 0xfdeaf6121ee95eb4u64,
    ensures
        lcg_key(301) == 0x8056ba1ac3c4f1a5u64,
        lcg_key(302) == 0x26692531be885502u64,
        lcg_key(303) == 0x59126f34324cef5bu64,
        lcg_key(304) == 0x352c5df6563b3800u64,
        lcg_key(305) == 0x7f2c562c2130d801u64,
        lcg_key(306) == 0xaedcc7f41553772eu64,
        lcg_key(307) == 0xee3838882d91c517u64,
        lcg_key(308) == 0x4f77dbf0ddc90e0cu64,
        lcg_key(309) == 0x22bdd5aa774b6c1du64,
        lcg_key(310) == 0x487a983cebc5641au64,
{
    assert((0xfdeaf6121ee95eb4nat * 6364136223846793005nat + 1) % 0x1_0000_0000_0000_0000nat == 0x8056ba1ac3c4f1a5nat) by (nonlinear_arith);
    assert(lcg_key(301) == 0x8056ba1ac3c4f1a5u64);
    assert((0x8056ba1ac3c4f1a5nat * 6364136223846793005nat + 1) % 0x1_0000_0000_0000_0000nat == 0x26692531be885502nat) by (nonlinear_arith);
    assert(lcg_key(302) == 0x26692531be885502u64);
    assert((0x26692531be885502nat * 6364136223846793005nat + 1) % 0x1_0000_0000_0000_0000nat == 0x59126f34324cef5bnat) by (nonlinear_arith);
    assert(lcg_key(303) == 0x59126f34324cef5bu64);
    assert((0x59126f34324cef5bnat * 6364136223846793005nat + 1) % 0x1_0000_0000_0000_0000nat == 0x352c5df6563b3800nat) by (nonlinear_arith);
    assert(lcg_key(304) == 0x352c5df6563b3800u64);
    assert((0x352c5df6563b3800nat * 6364136223846793005nat + 1) % 0x1_0000_0000_0000_0000nat == 0x7f2c562c2130d801nat) by (nonlinear_arith);
    assert(lcg_key(305) == 0x7f2c562c2130d801u64);
    assert((0x7f2c562c2130d801nat * 6364136223846793005nat + 1) % 0x1_0000_0000_0000_0000nat == 0xaedcc7f41553772enat) by (nonlinear_arith);
    assert(lcg_key(306) == 0xaedcc7f41553772eu64);
    assert((0xaedcc7f41553772enat * 6364136223846793005nat + 1) % 0x1_0000_0000_0000_0000nat == 0xee3838882d91c517nat) by (nonlinear_arith);
    assert(lcg_key(307) == 0xee3838882d91c517u64);
    assert((0xee3838882d91c517nat * 6364136223846793005nat + 1) % 0x1_0000_0000_0000_0000nat == 0x4f77dbf0ddc90e0cnat) by (nonlinear_arith);
    assert(lcg_key(308) == 0x4f77dbf0ddc90e0cu64);
    assert((0x4f77dbf0ddc90e0cnat * 6364136223846793005nat + 1) % 0x1_0000_0000_0000_0000nat == 0x22bdd5aa774b6c1dnat) by (nonlinear_arith);
    assert(lcg_key(309) == 0x22bdd5aa774b6c1du64);
    assert((0x22bdd5aa774b6c1dnat * 6364136223846793005nat + 1) % 0x1_0000_0000_0000_0000nat == 0x487a983cebc5641anat) by (nonlinear_arith);
    assert(lcg_key(310) == 0x487a983cebc5641au64);
}

pub(crate) proof fn lemma_steps_31()
    requires
        lcg_key(310) == 0x487a983cebc5641au64,
    ensures
        lcg_key(311) == 0x71dc2fd9597d7e93u64,
        lcg_key(312) == 0x8bb9f00f4c692cd8u64,
        lcg_key(313) == 0x2ef03e17d57409f9u64,
        lcg_key(314) == 0x84f68159d04547c6u64,
        lcg_key(315) == 0x06d76a8b8906d7cfu64,
        lcg_key(316) == 0x8e01f7f18abea064u64,
        lcg_key(317) == 0x2925436eff47cd95u64,
        lcg_key(318) == 0x7f1af82b62550e32u64,
        lcg_key(319) == 0x1399c7ea96184ccbu64,
        lcg_key(320) == 0x5c001352668534b0u64,
{
    assert((0x487a983cebc5641anat * 6364136223846793005nat + 1) % 0x1_0000_0000_0000_0000nat == 0x71dc2fd9597d7e93nat) by (nonlinear_arith);
    assert(lcg_key(311) == 0x71dc2fd9597d7e93u64);
    assert((0x71dc2fd9597d7e93nat * 6364136223846793005nat + 1) % 0x1_0000_0000_0000_0000nat == 0x8bb9f00f4c692cd8nat) by (nonlinear_arith);
    assert(lcg_key(312) == 0x8bb9f00f4c692cd8u64);
    assert((0x8bb9f00f4c692cd8nat * 6364136223846793005nat + 1) % 0x1_0000_0000_0000_0000nat == 0x2ef03e17d57409f9nat) by (nonlinear_arith);
    assert(lcg_key(313) == 0x2ef03e17d57409f9u64);
    assert((0x2ef03e17d57409f9nat * 6364136223846793005nat + 1) % 0x1_0000_0000_0000_0000nat == 0x84f68159d04547c6nat) by (nonlinear_arith);
    assert(lcg_key(314) == 0x84f68159d04547c6u64);
    assert((0x84f68159d04547c6nat * 6364136223846793005nat + 1) % 0x1_0000_0000_0000_0000nat == 0x06d76a8b8906d7cfnat) by (nonlinear_arith);
    assert(lcg_key(315) == 0x06d76a8b8906d7cfu64);
    assert((0x06d76a8b8906d7cfnat * 6364136223846793005nat + 1) % 0x1_0000_0000_0000_0000nat == 0x8e01f7f18abea064nat) by (nonlinear_arith);
    assert(lcg_key(316) == 0x8e01f7f18abea064u64);
    assert((0x8e01f7f18abea064nat * 6364136223846793005nat + 1) % 0x1_0000_0000_0000_0000nat == 0x2925436eff47cd95nat) by (nonlinear_arith);
    assert(lcg_key(317) == 0x2925436eff47cd95u64);
    assert((0x2925436eff47cd95nat * 6364136223846793005nat + 1) % 0x1_0000_0000_0000_0000nat == 0x7f1af82b62550e32nat) by (nonlinear_arith);
    assert(lcg_key(318) == 0x7f1af82b62550e32u64);
    assert((0x7f1af82b62550e32nat * 6364136223846793005nat + 1) % 0x1_0000_0000_0000_0000nat == 0x1399c7ea96184ccbnat) by (nonlinear_arith);
    assert(lcg_key(319) == 0x1399c7ea96184ccbu64);
    assert((0x1399c7ea96184ccbnat * 6364136223846793005nat + 1) % 0x1_0000_0000_0000_0000nat == 0x5c001352668534b0nat) by (nonlinear_arith);
    assert(lcg_key(320) == 0x5c001352668534b0u64);
}

pub(crate) proof fn lemma_steps_32()
    requires
        lcg_key(320) == 0x5c001352668534b0u64,
    ensures
        lcg_key(321) == 0x1250807404fd92f1u64,
        lcg_key(322) == 0x43c3da71bebd635eu64,
        lcg_key(323) == 0xc65e20df394c1987u64,
        lcg_key(324) == 0x0e359e43c29d75bcu64,
        lcg_key(325) == 0x7e88561aa981f60du64,
        lcg_key(326) == 0xe4ff3ec05679b34au64,
        lcg_key(327) == 0xdd4ef4c6e5683a03u64,
        lcg_key(328) == 0xa3be382eafd8af88u64,
        lcg_key(329) == 0x701c3193f25352e9u64,
        lcg_key(330) == 0xcffe8a4a5c6429f6u64,
{
    assert((0x5c001352668534b0nat * 6364136223846793005nat + 1) % 0x1_0000_0000_0000_0000nat == 0x1250807404fd92f1nat) by (nonlinear_arith);
    assert(lcg_key(321) == 0x1250807404fd92f1u64);
    assert((0x1250807404fd92f1nat * 6364136223846793005nat + 1) % 0x1_0000_0000_0000_0000nat == 0x43c3da71bebd635enat) by (nonlinear_arith);
    assert(lcg_key(322) == 0x43c3da71bebd635eu64);
    assert((0x43c3da71bebd635enat * 6364136223846793005nat + 1) % 0x1_0000_0000_0000_0000nat == 0xc65e20df394c1987nat) by (nonlinear_arith);
    assert(lcg_key(323) == 0xc65e20df394c1987u64);
    assert((0xc65e20df394c1987nat * 6364136223846793005nat + 1) % 0x1_0000_0000_0000_0000nat == 0x0e359e43c29d75bcnat) by (nonlinear_arith);
    assert(lcg_key(324) == 0x0e359e43c29d75bcu64);
    assert((0x0e359e43c29d75bcnat * 6364136223846793005nat + 1) % 0x1_0000_0000_0000_0000nat == 0x7e88561aa981f60dnat) by (nonlinear_arith);
    assert(lcg_key(325) == 0x7e88561aa981f60du64);
    assert((0x7e88561aa981f60dnat * 6364136223846793005nat + 1) % 0x1_0000_0000_0000_0000nat == 0xe4ff3ec05679b34anat) by (nonlinear_arith);
    assert(lcg_key(326) == 0xe4ff3ec05679b34au64);
    assert((0xe4ff3ec05679b34anat * 6364136223846793005nat + 1) % 0x1_0000_0000_0000_0000nat == 0xdd4ef4c6e5683a03nat) by (nonlinear_arith);
    assert(lcg_key(327) == 0xdd4ef4c6e5683a03u64);
    assert((0xdd4ef4c6e5683a03nat * 6364136223846793005nat + 1) % 0x1_0000_0000_0000_0000nat == 0xa3be382eafd8af88nat) by (nonlinear_arith);
    assert(lcg_key(328) == 0xa3be382eafd8af88u64);
    assert((0xa3be382eafd8af88nat * 6364136223846793005nat + 1) % 0x1_0000_0000_0000_0000nat == 0x701c3193f25352e9nat) by (nonlinear_arith);
    assert(lcg_key(329) == 0x701c3193f25352e9u64);
    assert((0x701c3193f25352e9nat * 6364136223846793005nat + 1) % 0x1_0000_0000_0000_0000nat == 0xcffe8a4a5c6429f6nat) by (nonlinear_arith);
    assert(lcg_key(330) == 0xcffe8a4a5c6429f6u64);
}

pub(crate) proof fn lemma_steps_33()
    requires
        lcg_key(330) == 0xcffe8a4a5c6429f6u64,
    ensures
        lcg_key(331) == 0xf37e8de7629a6a3fu64,
        lcg_key(332) == 0xa6eeb0147a84ee14u64,
        lcg_key(333) == 0xc236cbf1fd1dc585u64,
        lcg_key(334) == 0xf35f8b73b5a1b362u64,
        lcg_key(335) == 0x30a6930aa574263bu64,
        lcg_key(336) == 0x1910dd4678b8fd60u64,
        lcg_key(337) == 0x30fc140af71729e1u64,
        lcg_key(338) == 0xb12b77f918cdfb8eu64,
        lcg_key(339) == 0x9467d09f1da6a9f7u64,
        lcg_key(340) == 0xff9aa48f2560696cu64,
{
    assert((0xcffe8a4a5c6429f6nat * 6364136223846793005nat + 1) % 0x1_0000_0000_0000_0000nat == 0xf37e8de7629a6a3fnat) by (nonlinear_arith);
    assert(lcg_key(331) == 0xf37e8de7629a6a3fu64);
    assert((0xf37e8de7629a6a3fnat * 6364136223846793005nat + 1) % 0x1_0000_0000_0000_0000nat == 0xa6eeb0147a84ee14nat) by (nonlinear_arith);
    assert(lcg_key(332) == 0xa6eeb0147a84ee14u64);
    assert((0xa6eeb0147a84ee14nat * 6364136223846793005nat + 1) % 0x1_0000_0000_0000_0000nat == 0xc236cbf1fd1dc585nat) by (nonlinear_arith);
    assert(lcg_key(333) == 0xc236cbf1fd1dc585u64);
    assert((0xc236cbf1fd1dc585nat * 6364136223846793005nat + 1) % 0x1_0000_0000_0000_0000nat == 0xf35f8b73b5a1b362nat) by (nonlinear_arith);
    assert(lcg_key(334) == 0xf35f8b73b5a1b362u64);
    assert((0xf35f8b73b5a1b362nat * 6364136223846793005nat + 1) % 0x1_0000_0000_0000_0000nat == 0x30a6930aa574263bnat) by (nonlinear_arith);
    assert(lcg_key(335) == 0x30a6930aa574263bu64);
    assert((0x30a6930aa574263bnat * 6364136223846793005nat + 1) % 0x1_0000_0000_0000_0000nat == 0x1910dd4678b8fd60nat) by (nonlinear_arith);
    assert(lcg_key(336) == 0x1910dd4678b8fd60u64);
    assert((0x1910dd4678b8fd60nat * 6364136223846793005nat + 1) % 0x1_0000_0000_0000_0000nat == 0x30fc140af71729e1nat) by (nonlinear_arith);
    assert(lcg_key(337) == 0x30fc140af71729e1u64);
    assert((0x30fc140af71729e1nat * 6364136223846793005nat + 1) % 0x1_0000_0000_0000_0000nat == 0xb12b77f918cdfb8enat) by (nonlinear_arith);
    assert(lcg_key(338) == 0xb12b77f918cdfb8eu64);
    assert((0xb12b77f918cdfb8enat * 6364136223846793005nat + 1) % 0x1_0000_0000_0000_0000nat == 0x9467d09f1da6a9f7nat) by (nonlinear_arith);
    assert(lcg_key(339) == 0x9467d09f1da6a9f7u64);
    assert((0x9467d09f1da6a9f7nat * 6364136223846793005nat + 1) % 0x1_0000_0000_0000_0000nat == 0xff9aa48f2560696cnat) by (nonlinear_arith);
    assert(lcg_key(340) == 0xff9aa48f2560696cu64);
}

pub(crate) proof fn lemma_steps_34()
    requires
        lcg_key(340) == 0xff9aa48f2560696cu64,
    ensures
        lcg_key(341) == 0xddd4c919d21b1bfdu64,
        lcg_key(342) == 0xdd108e54c7e76e7au64,
        lcg_key(343) == 0xb2cad604787ef173u64,
        lcg_key(344) == 0x0c08b557d4077e38u64,
        lcg_key(345) == 0xa7e5a44d1386f7d9u64,
        lcg_key(346) == 0x0925f28410fb3826u64,
        lcg_key(347) == 0x0c96b3349321b8afu64,
        lcg_key(348) == 0x7aff7d73096747c4u64,
        lcg_key(349) == 0xb576aec1d8d5d975u64,
        lcg_key(350) == 0x00a1513c81914492u64,
{
    assert((0xff9aa48f2560696cnat * 6364136223846793005nat + 1) % 0x1_0000_0000_0000_0000nat == 0xddd4c919d21b1bfdnat) by (nonlinear_arith);
    assert(lcg_key(341) == 0xddd4c919d21b1bfdu64);
    assert((0xddd4c919d21b1bfdnat * 6364136223846793005nat + 1) % 0x1_0000_0000_0000_0000nat == 0xdd108e54c7e76e7anat) by (nonlinear_arith);
    assert(lcg_key(342) == 0xdd108e54c7e76e7au64);
    assert((0xdd108e54c7e76e7anat * 6364136223846793005nat + 1) % 0x1_0000_0000_0000_0000nat == 0xb2cad604787ef173nat) by (nonlinear_arith);
    assert(lcg_key(343) == 0xb2cad604787ef173u64);
    assert((0xb2cad604787ef173nat * 6364136223846793005nat + 1) % 0x1_0000_0000_0000_0000nat == 0x0c08b557d4077e38nat) by (nonlinear_arith);
    assert(lcg_key(344) == 0x0c08b557d4077e38u64);
    assert((0x0c08b557d4077e38nat * 6364136223846793005nat + 1) % 0x1_0000_0000_0000_0000nat == 0xa7e5a44d1386f7d9nat) by (nonlinear_arith);
    assert(lcg_key(345) == 0xa7e5a44d1386f7d9u64);
    assert((0xa7e5a44d1386f7d9nat * 6364136223846793005nat + 1) % 0x1_0000_0000_0000_0000nat == 0x0925f28410fb3826nat) by (nonlinear_arith);
    assert(lcg_key(346) == 0x0925f28410fb3826u64);
    assert((0x0925f28410fb3826nat * 6364136223846793005nat + 1) % 0x1_0000_0000_0000_0000nat == 0x0c96b3349321b8afnat) by (nonlinear_arith);
    assert(lcg_key(347) == 0x0c96b3349321b8afu64);
    assert((0x0c96b3349321b8afnat * 6364136223846793005nat + 1) % 0x1_0000_0000_0000_0000nat == 0x7aff7d73096747c4nat) by (nonlinear_arith);
    assert(lcg_key(348) == 0x7aff7d73096747c4u64);
    assert((0x7aff7d73096747c4nat * 6364136223846793005nat + 1) % 0x1_0000_0000_0000_0000nat == 0xb576aec1d8d5d975nat) by (nonlinear_arith);
    assert(lcg_key(349) == 0xb576aec1d8d5d975u64);
    assert((0xb576aec1d8d5d975nat * 6364136223846793005nat + 1) % 0x1_0000_0000_0000_0000nat == 0x00a1513c81914492nat) by (nonlinear_arith);
    assert(lcg_key(350) == 0x00a1513c81914492u64);
}

pub(crate) proof fn lemma_steps_35()
    requires
        lcg_key(350) == 0x00a1513c81914492u64,
    ensures
        lcg_key(351) == 0x806d0b7c18877babu64,
        lcg_key(352) == 0x8d2acd9c44b19210u64,
        lcg_key(353) == 0x265d4a12edfc9cd1u64,
        lcg_key(354) == 0xd2d0b0b678d83fbeu64,
        lcg_key(355) == 0x72506b3607387667u64,
        lcg_key(356) == 0x62479932c59ce91cu64,
        lcg_key(357) == 0xb56d61699185ddedu64,
        lcg_key(358) == 0x0d3dd635849195aau64,
        lcg_key(359) == 0x6cabec391ac8a4e3u64,
        lcg_key(360) == 0xfbd959f59b3098e8u64,
{
    assert((0x00a1513c81914492nat * 6364136223846793005nat + 1) % 0x1_0000_0000_0000_0000nat == 0x806d0b7c18877babnat) by (nonlinear_arith);
    assert(lcg_key(351) == 0x806d0b7c18877babu64);
    assert((0x806d0b7c18877babnat * 6364136223846793005nat + 1) % 0x1_0000_0000_0000_0000nat == 0x8d2acd9c44b19210nat) by (nonlinear_arith);
    assert(lcg_key(352) == 0x8d2acd9c44b19210u64);
    assert((0x8d2acd9c44b19210nat * 6364136223846793005nat + 1) % 0x1_0000_0000_0000_0000nat == 0x265d4a12edfc9cd1nat) by (nonlinear_arith);
    assert(lcg_key(353) == 0x265d4a12edfc9cd1u64);
    assert((0x265d4a12edfc9cd1nat * 6364136223846793005nat + 1) % 0x1_0000_0000_0000_0000nat == 0xd2d0b0b678d83fbenat) by (nonlinear_arith);
    assert(lcg_key(354) == 0xd2d0b0b678d83fbeu64);
    assert((0xd2d0b0b678d83fbenat * 6364136223846793005nat + 1) % 0x1_0000_0000_0000_0000nat == 0x72506b3607387667nat) by (nonlinear_arith);
    assert(lcg_key(355) == 0x72506b3607387667u64);
    assert((0x72506b3607387667nat * 6364136223846793005nat + 1) % 0x1_0000_0000_0000_0000nat == 0x62479932c59ce91cnat) by (nonlinear_arith);
    assert(lcg_key(356) == 0x62479932c59ce91cu64);
    assert((0x62479932c59ce91cnat * 6364136223846793005nat + 1) % 0x1_0000_0000_0000_0000nat == 0xb56d61699185ddednat) by (nonlinear_arith);
    assert(lcg_key(357) == 0xb56d61699185ddedu64);
    assert((0xb56d61699185ddednat * 6364136223846793005nat + 1) % 0x1_0000_0000_0000_0000nat == 0x0d3dd635849195aanat) by (nonlinear_arith);
    assert(lcg_key(358) == 0x0d3dd635849195aau64);
    assert((0x0d3dd635849195aanat * 6364136223846793005nat + 1) % 0x1_0000_0000_0000_0000nat == 0x6cabec391ac8a4e3nat) by (nonlinear_arith);
    assert(lcg_key(359) == 0x6cabec391ac8a4e3u64);
    assert((0x6cabec391ac8a4e3nat * 6364136223846793005nat + 1) % 0x1_0000_0000_0000_0000nat == 0xfbd959f59b3098e8nat) by (nonlinear_arith);
    assert(lcg_key(360) == 0xfbd959f59b3098e8u64);
}

pub(crate) proof fn lemma_steps_36()
    requires
        lcg_key(360) == 0xfbd959f59b3098e8u64,
    ensures
        lcg_key(361) == 0x198b699f426df8c9u64,
        lcg_key(362) == 0xb65f3225b4bd7256u64,
        lcg_key(363) == 0xbdb4069dd513c31fu64,
        lcg_key(364) == 0x0c4e31540750ad74u64,
        lcg_key(365) == 0x8c809e3db3bf0965u64,
        lcg_key(366) == 0x4ae0acbfd206c1c2u64,
        lcg_key(367) == 0x776fbd77a3394d1bu64,
        lcg_key(368) == 0x34d4f4fe0309f2c0u64,
        lcg_key(369) == 0xc29678c3c1ecebc1u64,
        lcg_key(370) == 0x1948f16d22ef2feeu64,
{
    assert((0xfbd959f59b3098e8nat * 6364136223846793005nat + 1) % 0x1_0000_0000_0000_0000nat == 0x198b699f426df8c9nat) by (nonlinear_arith);
    assert(lcg_key(361) == 0x198b699f426df8c9u64);
    assert((0x198b699f426df8c9nat * 6364136223846793005nat + 1) % 0x1_0000_0000_0000_0000nat == 0xb65f3225b4bd7256nat) by (nonlinear_arith);
    assert(lcg_key(362) == 0xb65f3225b4bd7256u64);
    assert((0xb65f3225b4bd7256nat * 6364136223846793005nat + 1) % 0x1_0000_0000_0000_0000nat == 0xbdb4069dd513c31fnat) by (nonlinear_arith);
    assert(lcg_key(363) == 0xbdb4069dd513c31fu64);
    assert((0xbdb4069dd513c31fnat * 6364136223846793005nat + 1) % 0x1_0000_0000_0000_0000nat == 0x0c4e31540750ad74nat) by (nonlinear_arith);
    assert(lcg_key(364) == 0x0c4e31540750ad74u64);
    assert((0x0c4e31540750ad74nat * 6364136223846793005nat + 1) % 0x1_0000_0000_0000_0000nat == 0x8c809e3db3bf0965nat) by (nonlinear_arith);
    assert(lcg_key(365) == 0x8c809e3db3bf0965u64);
    assert((0x8c809e3db3bf0965nat * 6364136223846793005nat + 1) % 0x1_0000_0000_0000_0000nat == 0x4ae0acbfd206c1c2nat) by (nonlinear_arith);
    assert(lcg_key(366) == 0x4ae0acbfd206c1c2u64);
    assert((0x4ae0acbfd206c1c2nat * 6364136223846793005nat + 1) % 0x1_0000_0000_0000_0000nat == 0x776fbd77a3394d1bnat) by (nonlinear_arith);
    assert(lcg_key(367) == 0x776fbd77a3394d1bu64);
    assert((0x776fbd77a3394d1bnat * 6364136223846793005nat + 1) % 0x1_0000_0000_0000_0000nat == 0x34d4f4fe0309f2c0nat) by (nonlinear_arith);
    assert(lcg_key(368) == 0x34d4f4fe0309f2c0u64);
    assert((0x34d4f4fe0309f2c0nat * 6364136223846793005nat + 1) % 0x1_0000_0000_0000_0000nat == 0xc29678c3c1ecebc1nat) by (nonlinear_arith);
    assert(lcg_key(369) == 0xc29678c3c1ecebc1u64);
    assert((0xc29678c3c1ecebc1nat * 6364136223846793005nat + 1) % 0x1_0000_0000_0000_0000nat == 0x1948f16d22ef2feenat) by (nonlinear_arith);
    assert(lcg_key(370) == 0x1948f16d22ef2feeu64);
}

pub(crate) proof fn lemma_steps_37()
    requires
        lcg_key(370) == 0x1948f16d22ef2feeu64,
    ensures
        lcg_key(371) == 0xa48430cb5a587ed7u64,
        lcg_key(372) == 0x891988856f9df4ccu64,
        lcg_key(373) == 0x97a6854c05f13bddu64,
        lcg_key(374) == 0x4ccc62562bbb28dau64,
        lcg_key(375) == 0xa5a90339080c5453u64,
        lcg_key(376) == 0x26b122d1404eff98u64,
        lcg_key(377) == 0xc8e29d43622755b9u64,
        lcg_key(378) == 0xbb5d4666951dd886u64,
        lcg_key(379) == 0xde50b236d2a7898fu64,
        lcg_key(380) == 0x81d958a0a8ec1f24u64,
{
    assert((0x1948f16d22ef2feenat * 6364136223846793005nat + 1) % 0x1_0000_0000_0000_0000nat == 0xa48430cb5a587ed7nat) by (nonlinear_arith);
    assert(lcg_key(371) == 0xa48430cb5a587ed7u64);
    assert((0xa48430cb5a587ed7nat * 6364136223846793005nat + 1) % 0x1_0000_0000_0000_0000nat == 0x891988856f9df4ccnat) by (nonlinear_arith);
    assert(lcg_key(372) == 0x891988856f9df4ccu64);
    assert((0x891988856f9df4ccnat * 6364136223846793005nat + 1) % 0x1_0000_0000_0000_0000nat == 0x97a6854c05f13bddnat) by (nonlinear_arith);
    assert(lcg_key(373) == 0x97a6854c05f13bddu64);
    assert((0x97a6854c05f13bddnat * 6364136223846793005nat + 1) % 0x1_0000_0000_0000_0000nat == 0x4ccc62562bbb28danat) by (nonlinear_arith);
    assert(lcg_key(374) == 0x4ccc62562bbb28dau64);
    assert((0x4ccc62562bbb28danat * 6364136223846793005nat + 1) % 0x1_0000_0000_0000_0000nat == 0xa5a90339080c5453nat) by (nonlinear_arith);
    assert(lcg_key(375) == 0xa5a90339080c5453u64);
    assert((0xa5a90339080c5453nat * 6364136223846793005nat + 1) % 0x1_0000_0000_0000_0000nat == 0x26b122d1404eff98nat) by (nonlinear_arith);
    assert(lcg_key(376) == 0x26b122d1404eff98u64);
    assert((0x26b122d1404eff98nat * 6364136223846793005nat + 1) % 0x1_0000_0000_0000_0000nat == 0xc8e29d43622755b9nat) by (nonlinear_arith);
    assert(lcg_key(377) == 0xc8e29d43622755b9u64);
    assert((0xc8e29d43622755b9nat * 6364136223846793005nat + 1) % 0x1_0000_0000_0000_0000nat == 0xbb5d4666951dd886nat) by (nonlinear_arith);
    assert(lcg_key(378) == 0xbb5d4666951dd886u64);
    assert((0xbb5d4666951dd886nat * 6364136223846793005nat + 1) % 0x1_0000_0000_0000_0000nat == 0xde50b236d2a7898fnat) by (nonlinear_arith);
    assert(lcg_key(379) == 0xde50b236d2a7898fu64);
    assert((0xde50b236d2a7898fnat * 6364136223846793005nat + 1) % 0x1_0000_0000_0000_0000nat == 0x81d958a0a8ec1f24nat) by (nonlinear_arith);
    assert(lcg_key(380) == 0x81d958a0a8ec1f24u64);
}

pub(crate) proof fn lemma_steps_38()
    requires
        lcg_key(380) == 0x81d958a0a8ec1f24u64,
    ensures
        lcg_key(381) == 0xe7687c0ba4e85555u64,
        lcg_key(382) == 0xd0b48d5b25a52af2u64,
        lcg_key(383) == 0x68a0371e65309a8bu64,
        lcg_key(384) == 0xc50fbe251d1d1f70u64,
        lcg_key(385) == 0x75dcb3f01ce716b1u64,
        lcg_key(386) == 0x94a5dde579e5cc1eu64,
        lcg_key(387) == 0x0a6c7d6e231dc347u64,
        lcg_key(388) == 0x16a4f58eac6e8c7cu64,
        lcg_key(389) == 0xd89d0177bb4c35cdu64,
        lcg_key(390) == 0x6b282453e767280au64,
{
    assert((0x81d958a0a8ec1f24nat * 6364136223846793005nat + 1) % 0x1_0000_0000_0000_0000nat == 0xe7687c0ba4e85555nat) by (nonlinear_arith);
    assert(lcg_key(381) == 0xe7687c0ba4e85555u64);
    assert((0xe7687c0ba4e85555nat * 6364136223846793005nat + 1) % 0x1_0000_0000_0000_0000nat == 0xd0b48d5b25a52af2nat) by (nonlinear_arith);
    assert(lcg_key(382) == 0xd0b48d5b25a52af2u64);
    assert((0xd0b48d5b25a52af2nat * 6364136223846793005nat + 1) % 0x1_0000_0000_0000_0000nat == 0x68a0371e65309a8bnat) by (nonlinear_arith);
    assert(lcg_key(383) == 0x68a0371e65309a8bu64);
    assert((0x68a0371e65309a8bnat * 6364136223846793005nat + 1) % 0x1_0000_0000_0000_0000nat == 0xc50fbe251d1d1f70nat) by (nonlinear_arith);
    assert(lcg_key(384) == 0xc50fbe251d1d1f70u64);
    assert((0xc50fbe251d1d1f70nat * 6364136223846793005nat + 1) % 0x1_0000_0000_0000_0000nat == 0x75dcb3f01ce716b1nat) by (nonlinear_arith);
    assert(lcg_key(385) == 0x75dcb3f01ce716b1u64);
    assert((0x75dcb3f01ce716b1nat * 6364136223846793005nat + 1) % 0x1_0000_0000_0000_0000nat == 0x94a5dde579e5cc1enat) by (nonlinear_arith);
    assert(lcg_key(386) == 0x94a5dde579e5cc1eu64);
    assert((0x94a5dde579e5cc1enat * 6364136223846793005nat + 1) % 0x1_0000_0000_0000_0000nat == 0x0a6c7d6e231dc347nat) by (nonlinear_arith);
    assert(lcg_key(387) == 0x0a6c7d6e231dc347u64);
    assert((0x0a6c7d6e231dc347nat * 6364136223846793005nat + 1) % 0x1_0000_0000_0000_0000nat == 0x16a4f58eac6e8c7cnat) by (nonlinear_arith);
    assert(lcg_key(388) == 0x16a4f58eac6e8c7cu64);
    assert((0x16a4f58eac6e8c7cnat * 6364136223846793005nat + 1) % 0x1_0000_0000_0000_0000nat == 0xd89d0177bb4c35cdnat) by (nonlinear_arith);
    assert(lcg_key(389) == 0xd89d0177bb4c35cdu64);
    assert((0xd89d0177bb4c35cdnat * 6364136223846793005nat + 1) % 0x1_0000_0000_0000_0000nat == 0x6b282453e767280anat) by (nonlinear_arith);
    assert(lcg_key(390) == 0x6b282453e767280au64);
}

pub(crate) proof fn lemma_steps_39()
    requires
        lcg_key(390) == 0x6b282453e767280au64,
    ensures
        lcg_key(391) == 0xe811e33b1fd0ffc3u64,
        lcg_key(392) == 0x39f0a807071db248u64,
        lcg_key(393) == 0x2bc9f1a21f920ea9u64,
        lcg_key(394) == 0x24394b3ab64f6ab6u64,
        lcg_key(395) == 0x12f143a895d40bffu64,
        lcg_key(396) == 0x57f7d6c437a49cd4u64,
        lcg_key(397) == 0xd752fabaa920bd45u64,
        lcg_key(398) == 0xe6cede169dcf8022u64,
        lcg_key(399) == 0xeae9a40d59d463fbu64,
        lcg_key(400) == 0xc9f09b54dd061820u64,
{
    assert((0x6b282453e767280anat * 6364136223846793005nat + 1) % 0x1_0000_0000_0000_0000nat == 0xe811e33b1fd0ffc3nat) by (nonlinear_arith);
    assert(lcg_key(391) == 0xe811e33b1fd0ffc3u64);
    assert((0xe811e33b1fd0ffc3nat * 6364136223846793005nat + 1) % 0x1_0000_0000_0000_0000nat == 0x39f0a807071db248nat) by (nonlinear_arith);
    assert(lcg_key(392) == 0x39f0a807071db248u64);
    assert((0x39f0a807071db248nat * 6364136223846793005nat + 1) % 0x1_0000_0000_0000_0000nat == 0x2bc9f1a21f920ea9nat) by (nonlinear_arith);
    assert(lcg_key(393) == 0x2bc9f1a21f920ea9u64);
    assert((0x2bc9f1a21f920ea9nat * 6364136223846793005nat + 1) % 0x1_0000_0000_0000_0000nat == 0x24394b3ab64f6ab6nat) by (nonlinear_arith);
    assert(lcg_key(394) == 0x24394b3ab64f6ab6u64);
    assert((0x24394b3ab64f6ab6nat * 6364136223846793005nat + 1) % 0x1_0000_0000_0000_0000nat == 0x12f143a895d40bffnat) by (nonlinear_arith);
    assert(lcg_key(395) == 0x12f143a895d40bffu64);
    assert((0x12f143a895d40bffnat * 6364136223846793005nat + 1) % 0x1_0000_0000_0000_0000nat == 0x57f7d6c437a49cd4nat) by (nonlinear_arith);
    assert(lcg_key(396) == 0x57f7d6c437a49cd4u64);
    assert((0x57f7d6c437a49cd4nat * 6364136223846793005nat + 1) % 0x1_0000_0000_0000_0000nat == 0xd752fabaa920bd45nat) by (nonlinear_arith);
    assert(lcg_key(397) == 0xd752fabaa920bd45u64);
    assert((0xd752fabaa920bd45nat * 6364136223846793005nat + 1) % 0x1_0000_0000_0000_0000nat == 0xe6cede169dcf8022nat) by (nonlinear_arith);
    assert(lcg_key(398) == 0xe6cede169dcf8022u64);
    assert((0xe6cede169dcf8022nat * 6364136223846793005nat + 1) % 0x1_0000_0000_0000_0000nat == 0xeae9a40d59d463fbnat) by (nonlinear_arith);
    assert(lcg_key(399) == 0xeae9a40d59d463fbu64);
    assert((0xeae9a40d59d463fbnat * 6364136223846793005nat + 1) % 0x1_0000_0000_0000_0000nat == 0xc9f09b54dd061820nat) by (nonlinear_arith);
    assert(lcg_key(400) == 0xc9f09b54dd061820u64);
}

pub(crate) proof fn lemma_steps_40()
    requires
        lcg_key(400) == 0xc9f09b54dd061820u64,
    ensures
        lcg_key(401) == 0xc18d98e66aaa1da1u64,
        lcg_key(402) == 0x469a6e872f4f144eu64,
        lcg_key(403) == 0x69a36aff855f43b7u64,
        lcg_key(404) == 0x594fcdcc71d9b02cu64,
        lcg_key(405) == 0x210465279b45cbbdu64,
        lcg_key(406) == 0xde5c7a529c58933au64,
        lcg_key(407) == 0x1caef08a555da733u64,
        lcg_key(408) == 0x99e665c6ec17b0f8u64,
        lcg_key(409) == 0xf82a8102e14d2399u64,
        lcg_key(410) == 0xa2ef39a3034528e6u64,
{
    assert((0xc9f09b54dd061820nat * 6364136223846793005nat + 1) % 0x1_0000_0000_0000_0000nat == 0xc18d98e66aaa1da1nat) by (nonlinear_arith);
    assert(lcg_key(401) == 0xc18d98e66aaa1da1u64);
    assert((0xc18d98e66aaa1da1nat * 6364136223846793005nat + 1) % 0x1_0000_0000_0000_0000nat == 0x469a6e872f4f144enat) by (nonlinear_arith);
    assert(lcg_key(402) == 0x469a6e872f4f144eu64);
    assert((0x469a6e872f4f144enat * 6364136223846793005nat + 1) % 0x1_0000_0000_0000_0000nat == 0x69a36aff855f43b7nat) by (nonlinear_arith);
    assert(lcg_key(403) == 0x69a36aff855f43b7u64);
    assert((0x69a36aff855f43b7nat * 6364136223846793005nat + 1) % 0x1_0000_0000_0000_0000nat == 0x594fcdcc71d9b02cnat) by (nonlinear_arith);
    assert(lcg_key(404) == 0x594fcdcc71d9b02cu64);
    assert((0x594fcdcc71d9b02cnat * 6364136223846793005nat + 1) % 0x1_0000_0000_0000_0000nat == 0x210465279b45cbbdnat) by (nonlinear_arith);
    assert(lcg_key(405) == 0x210465279b45cbbdu64);
    assert((0x210465279b45cbbdnat * 6364136223846793005nat + 1) % 0x1_0000_0000_0000_0000nat == 0xde5c7a529c58933anat) by (nonlinear_arith);
    assert(lcg_key(406) == 0xde5c7a529c58933au64);
    assert((0xde5c7a529c58933anat * 6364136223846793005nat + 1) % 0x1_0000_0000_0000_0000nat == 0x1caef08a555da733nat) by (nonlinear_arith);
    assert(lcg_key(407) == 0x1caef08a555da733u64);
    assert((0x1caef08a555da733nat * 6364136223846793005nat + 1) % 0x1_0000_0000_0000_0000nat == 0x99e665c6ec17b0f8nat) by (nonlinear_arith);
    assert(lcg_key(408) == 0x99e665c6ec17b0f8u64);
    assert((0x99e665c6ec17b0f8nat * 6364136223846793005nat + 1) % 0x1_0000_0000_0000_0000nat == 0xf82a8102e14d2399nat) by (nonlinear_arith);
    assert(lcg_key(409) == 0xf82a8102e14d2399u64);
    assert((0xf82a8102e14d2399nat * 6364136223846793005nat + 1) % 0x1_0000_0000_0000_0000nat == 0xa2ef39a3034528e6nat) by (nonlinear_arith);
    assert(lcg_key(410) == 0xa2ef39a3034528e6u64);
}

pub(crate) proof fn lemma_steps_41()
    requires
        lcg_key(410) == 0xa2ef39a3034528e6u64,
    ensures
        lcg_key(411) == 0xc167d819f8504a6fu64,
        lcg_key(412) == 0xe2791d17c1a52684u64,
        lcg_key(413) == 0xe38b380092f74135u64,
        lcg_key(414) == 0x2d9a0c982ea8c152u64,
        lcg_key(415) == 0x599f1aecc84ba96bu64,
        lcg_key(416) == 0x5c3c01211d9fdcd0u64,
        lcg_key(417) == 0x698d64adc8b50091u64,
        lcg_key(418) == 0xb5c4c41f737e087eu64,
        lcg_key(419) == 0x7a974cd92cb40027u64,
        lcg_key(420) == 0xaf84e704d26a5fdcu64,
{
    assert((0xa2ef39a3034528e6nat * 6364136223846793005nat + 1) % 0x1_0000_0000_0000_0000nat == 0xc167d819f8504a6fnat) by (nonlinear_arith);
    assert(lcg_key(411) == 0xc167d819f8504a6fu64);
    assert((0xc167d819f8504a6fnat * 6364136223846793005nat + 1) % 0x1_0000_0000_0000_0000nat == 0xe2791d17c1a52684nat) by (nonlinear_arith);
    assert(lcg_key(412) == 0xe2791d17c1a52684u64);
    assert((0xe2791d17c1a52684nat * 6364136223846793005nat + 1) % 0x1_0000_0000_0000_0000nat == 0xe38b380092f74135nat) by (nonlinear_arith);
    assert(lcg_key(413) == 0xe38b380092f74135u64);
    assert((0xe38b380092f74135nat * 6364136223846793005nat + 1) % 0x1_0000_0000_0000_0000nat == 0x2d9a0c982ea8c152nat) by (nonlinear_arith);
    assert(lcg_key(414) == 0x2d9a0c982ea8c152u64);
    assert((0x2d9a0c982ea8c152nat * 6364136223846793005nat + 1) % 0x1_0000_0000_0000_0000nat == 0x599f1aecc84ba96bnat) by (nonlinear_arith);
    assert(lcg_key(415) == 0x599f1aecc84ba96bu64);
    assert((0x599f1aecc84ba96bnat * 6364136223846793005nat + 1) % 0x1_0000_0000_0000_0000nat == 0x5c3c01211d9fdcd0nat) by (nonlinear_arith);
    assert(lcg_key(416) == 0x5c3c01211d9fdcd0u64);
    assert((0x5c3c01211d9fdcd0nat * 6364136223846793005nat + 1) % 0x1_0000_0000_0000_0000nat == 0x698d64adc8b50091nat) by (nonlinear_arith);
    assert(lcg_key(417) == 0x698d64adc8b50091u64);
    assert((0x698d64adc8b50091nat * 6364136223846793005nat + 1) % 0x1_0000_0000_0000_0000nat == 0xb5c4c41f737e087enat) by (nonlinear_arith);
    assert(lcg_key(418) == 0xb5c4c41f737e087eu64);
    assert((0xb5c4c41f737e087enat * 6364136223846793005nat + 1) % 0x1_0000_0000_0000_0000nat == 0x7a974cd92cb40027nat) by (nonlinear_arith);
    assert(lcg_key(419) == 0x7a974cd92cb40027u64);
    assert((0x7a974cd92cb40027nat * 6364136223846793005nat + 1) % 0x1_0000_0000_0000_0000nat == 0xaf84e704d26a5fdcnat) by (nonlinear_arith);
    assert(lcg_key(420) == 0xaf84e704d26a5fdcu64);
}

pub(crate) proof fn lemma_steps_42()
    requires
        lcg_key(420) == 0xaf84e704d26a5fdcu64,
    ensures
        lcg_key(421) == 0x01ea9646dd4cfdadu64,
        lcg_key(422) == 0x3bc9b6c61a126a6au64,
        lcg_key(423) == 0x035fc8b31fb94aa3u64,
        lcg_key(424) == 0xee5c17e15477fba8u64,
        lcg_key(425) == 0xf65e2096b7b79489u64,
        lcg_key(426) == 0x132a9da97db21316u64,
        lcg_key(427) == 0x04202554139344dfu64,
        lcg_key(428) == 0x9d0109d9c9d8bc34u64,
        lcg_key(429) == 0xfbaf3e93fabae125u64,
        lcg_key(430) == 0xae8faa82cf13ee82u64,
{
    assert((0xaf84e704d26a5fdcnat * 6364136223846793005nat + 1) % 0x1_0000_0000_0000_0000nat == 0x01ea9646dd4cfdadnat) by (nonlinear_arith);
    assert(lcg_key(421) == 0x01ea9646dd4cfdadu64);
    assert((0x01ea9646dd4cfdadnat * 6364136223846793005nat + 1) % 0x1_0000_0000_0000_0000nat == 0x3bc9b6c61a126a6anat) by (nonlinear_arith);
    assert(lcg_key(422) == 0x3bc9b6c61a126a6au64);
    assert((0x3bc9b6c61a126a6anat * 6364136223846793005nat + 1) % 0x1_0000_0000_0000_0000nat == 0x035fc8b31fb94aa3nat) by (nonlinear_arith);
    assert(lcg_key(423) == 0x035fc8b31fb94aa3u64);
    assert((0x035fc8b31fb94aa3nat * 6364136223846793005nat + 1) % 0x1_0000_0000_0000_0000nat == 0xee5c17e15477fba8nat) by (nonlinear_arith);
    assert(lcg_key(424) == 0xee5c17e15477fba8u64);
    assert((0xee5c17e15477fba8nat * 6364136223846793005nat + 1) % 0x1_0000_0000_0000_0000nat == 0xf65e2096b7b79489nat) by (nonlinear_arith);
    assert(lcg_key(425) == 0xf65e2096b7b79489u64);
    assert((0xf65e2096b7b79489nat * 6364136223846793005nat + 1) % 0x1_0000_0000_0000_0000nat == 0x132a9da97db21316nat) by (nonlinear_arith);
    assert(lcg_key(426) == 0x132a9da97db21316u64);
    assert((0x132a9da97db21316nat * 6364136223846793005nat + 1) % 0x1_0000_0000_0000_0000nat == 0x04202554139344dfnat) by (nonlinear_arith);
    assert(lcg_key(427) == 0x04202554139344dfu64);
    assert((0x04202554139344dfnat * 6364136223846793005nat + 1) % 0x1_0000_0000_0000_0000nat == 0x9d0109d9c9d8bc34nat) by (nonlinear_arith);
    assert(lcg_key(428) == 0x9d0109d9c9d8bc34u64);
    assert((0x9d0109d9c9d8bc34nat * 6364136223846793005nat + 1) % 0x1_0000_0000_0000_0000nat == 0xfbaf3e93fabae125nat) by (nonlinear_arith);
    assert(lcg_key(429) == 0xfbaf3e93fabae125u64);
    assert((0xfbaf3e93fabae125nat * 6364136223846793005nat + 1) % 0x1_0000_0000_0000_0000nat == 0xae8faa82cf13ee82nat) by (nonlinear_arith);
    assert(lcg_key(430) == 0xae8faa82cf13ee82u64);
}

pub(crate) proof fn lemma_steps_43()
    requires
        lcg_key(430) == 0xae8faa82cf13ee82u64,
    ensures
        lcg_key(431) == 0x956b23fbb37d6adbu64,
        lcg_key(432) == 0x43a76980fa856d80u64,
        lcg_key(433) == 0x7f88339ef646bf81u64,
        lcg_key(434) == 0xe1f6e4d32585a8aeu64,
        lcg_key(435) == 0x3e45fc2fbc72f897u64,
        lcg_key(436) == 0xe3107223ad6b9b8cu64,
        lcg_key(437) == 0x7c3b6cb8f690cb9du64,
        lcg_key(438) == 0x406ecc274ad7ad9au64,
        lcg_key(439) == 0x5ef2442ce9aaea13u64,
        lcg_key(440) == 0x7613431fbe399258u64,
{
    assert((0xae8faa82cf13ee82nat * 6364136223846793005nat + 1) % 0x1_0000_0000_0000_0000nat == 0x956b23fbb37d6adbnat) by (nonlinear_arith);
    assert(lcg_key(431) == 0x956b23fbb37d6adbu64);
    assert((0x956b23fbb37d6adbnat * 6364136223846793005nat + 1) % 0x1_0000_0000_0000_0000nat == 0x43a76980fa856d80nat) by (nonlinear_arith);
    assert(lcg_key(432) == 0x43a76980fa856d80u64);
    assert((0x43a76980fa856d80nat * 6364136223846793005nat + 1) % 0x1_0000_0000_0000_0000nat == 0x7f88339ef646bf81nat) by (nonlinear_arith);
    assert(lcg_key(433) == 0x7f88339ef646bf81u64);
    assert((0x7f88339ef646bf81nat * 6364136223846793005nat + 1) % 0x1_0000_0000_0000_0000nat == 0xe1f6e4d32585a8aenat) by (nonlinear_arith);
    assert(lcg_key(434) == 0xe1f6e4d32585a8aeu64);
    assert((0xe1f6e4d32585a8aenat * 6364136223846793005nat + 1) % 0x1_0000_0000_0000_0000nat == 0x3e45fc2fbc72f897nat) by (nonlinear_arith);
    assert(lcg_key(435) == 0x3e45fc2fbc72f897u64);
    assert((0x3e45fc2fbc72f897nat * 6364136223846793005nat + 1) % 0x1_0000_0000_0000_0000nat == 0xe3107223ad6b9b8cnat) by (nonlinear_arith);
    assert(lcg_key(436) == 0xe3107223ad6b9b8cu64);
    assert((0xe3107223ad6b9b8cnat * 6364136223846793005nat + 1) % 0x1_0000_0000_0000_0000nat == 0x7c3b6cb8f690cb9dnat) by (nonlinear_arith);
    assert(lcg_key(437) == 0x7c3b6cb8f690cb9du64);
    assert((0x7c3b6cb8f690cb9dnat * 6364136223846793005nat + 1) % 0x1_0000_0000_0000_0000nat == 0x406ecc274ad7ad9anat) by (nonlinear_arith);
    assert(lcg_key(438) == 0x406ecc274ad7ad9au64);
    assert((0x406ecc274ad7ad9anat * 6364136223846793005nat + 1) % 0x1_0000_0000_0000_0000nat == 0x5ef2442ce9aaea13nat) by (nonlinear_arith);
    assert(lcg_key(439) == 0x5ef2442ce9aaea13u64);
    assert((0x5ef2442ce9aaea13nat * 6364136223846793005nat + 1) % 0x1_0000_0000_0000_0000nat == 0x7613431fbe399258nat) by (nonlinear_arith);
    assert(lcg_key(440) == 0x7613431fbe399258u64);
}

pub(crate) proof fn lemma_steps_44()
    requires
        lcg_key(440) == 0x7613431fbe399258u64,
    ensures
        lcg_key(441) == 0xab14f45f4cf06179u64,
        lcg_key(442) == 0x10aad7096e092946u64,
        lcg_key(443) == 0xd5f63722b0d3fb4fu64,
        lcg_key(444) == 0xf21b39b1f7ea5de4u64,
        lcg_key(445) == 0x856b1ea22e7a9d15u64,
        lcg_key(446) == 0x8722ec41a8b407b2u64,
        lcg_key(447) == 0xf2f1bf974a10a84bu64,
        lcg_key(448) == 0xfca5da2d8011ca30u64,
        lcg_key(449) == 0x1feb0959445e5a71u64,
        lcg_key(450) == 0x8fbf553d0338f4deu64,
{
    assert((0x7613431fbe399258nat * 6364136223846793005nat + 1) % 0x1_0000_0000_0000_0000nat == 0xab14f45f4cf06179nat) by (nonlinear_arith);
    assert(lcg_key(441) == 0xab14f45f4cf06179u64);
    assert((0xab14f45f4cf06179nat * 6364136223846793005nat + 1) % 0x1_0000_0000_0000_0000nat == 0x10aad7096e092946nat) by (nonlinear_arith);
    assert(lcg_key(442) == 0x10aad7096e092946u64);
    assert((0x10aad7096e092946nat * 6364136223846793005nat + 1) % 0x1_0000_0000_0000_0000nat == 0xd5f63722b0d3fb4fnat) by (nonlinear_arith);
    assert(lcg_key(443) == 0xd5f63722b0d3fb4fu64);
    assert((0xd5f63722b0d3fb4fnat * 6364136223846793005nat + 1) % 0x1_0000_0000_0000_0000nat == 0xf21b39b1f7ea5de4nat) by (nonlinear_arith);
    assert(lcg_key(444) == 0xf21b39b1f7ea5de4u64);
    assert((0xf21b39b1f7ea5de4nat * 6364136223846793005nat + 1) % 0x1_0000_0000_0000_0000nat == 0x856b1ea22e7a9d15nat) by (nonlinear_arith);
    assert(lcg_key(445) == 0x856b1ea22e7a9d15u64);
    assert((0x856b1ea22e7a9d15nat * 6364136223846793005nat + 1) % 0x1_0000_0000_0000_0000nat == 0x8722ec41a8b407b2nat) by (nonlinear_arith);
    assert(lcg_key(446) == 0x8722ec41a8b407b2u64);
    assert((0x8722ec41a8b407b2nat * 6364136223846793005nat + 1) % 0x1_0000_0000_0000_0000nat == 0xf2f1bf974a10a84bnat) by (nonlinear_arith);
    assert(lcg_key(447) == 0xf2f1bf974a10a84bu64);
    assert((0xf2f1bf974a10a84bnat * 6364136223846793005nat + 1) % 0x1_0000_0000_0000_0000nat == 0xfca5da2d8011ca30nat) by (nonlinear_arith);
    assert(lcg_key(448) == 0xfca5da2d8011ca30u64);
    assert((0xfca5da2d8011ca30nat * 6364136223846793005nat + 1) % 0x1_0000_0000_0000_0000nat == 0x1feb0959445e5a71nat) by (nonlinear_arith);
    assert(lcg_key(449) == 0x1feb0959445e5a71u64);
    assert((0x1feb0959445e5a71nat * 6364136223846793005nat + 1) % 0x1_0000_0000_0000_0000nat == 0x8fbf553d0338f4denat) by (nonlinear_arith);
    assert(lcg_key(450) == 0x8fbf553d0338f4deu64);
}

/// The generator's value at every tenth step.
pub(crate) proof fn lemma_steps_all()
    ensures
        lcg_key(0) == 0x123456789abcdef0u64,
        lcg_key(10) == 0x65ece16055752636u64,
        lcg_key(20) == 0xbdb5a33662f547acu64,
        lcg_key(30) == 0xe14356cf47a914d2u64,
        lcg_key(40) == 0x830db1434cc2eb28u64,
        lcg_key(50) == 0x0f65628b31b0142eu64,
        lcg_key(60) == 0xe26a8302c3302564u64,
        lcg_key(70) == 0x1d94f5635527604au64,
        lcg_key(80) == 0x276e876e85041260u64,
        lcg_key(90) == 0xe8e73c0f594ef526u64,
        lcg_key(100) == 0x96a51d06f7be8e1cu64,
        lcg_key(110) == 0x39fe00f675e58ec2u64,
        lcg_key(120) == 0x396c7fc9e9543498u64,
        lcg_key(130) == 0x22c4d38482c4a91eu64,
        lcg_key(140) == 0x43037e1a5caa61d4u64,
        lcg_key(150) == 0x49bd6a8c683c803au64,
        lcg_key(160) == 0x777a2254bcd331d0u64,
        lcg_key(170) == 0x14284b8e2c301016u64,
        lcg_key(180) == 0x7a4e89d79309808cu64,
        lcg_key(190) == 0x678b982997f114b2u64,
        lcg_key(200) == 0xc0c8c9519b6cea08u64,
        lcg_key(210) == 0x4f4f765532dc0a0eu64,
        lcg_key(220) == 0x635f3fead47dca44u64,
        lcg_key(230) == 0xc6c90bdc0db42c2au64,
        lcg_key(240) == 0x0748f21ee5593d40u64,
        lcg_key(250) == 0xae2e2aeb9abf7706u64,
        lcg_key(260) == 0xcdcaa89bf6b51efcu64,
        lcg_key(270) == 0xce6f80dd8ea2a6a2u64,
        lcg_key(280) == 0x8a2bf1f1da9c0b78u64,
        lcg_key(290) == 0x10d242a885fd36feu64,
        lcg_key(300) == 0xfdeaf6121ee95eb4u64,
        lcg_key(310) == 0x487a983cebc5641au64,
        lcg_key(320) == 0x5c001352668534b0u64,
        lcg_key(330) == 0xcffe8a4a5c6429f6u64,
        lcg_key(340) == 0xff9aa48f2560696cu64,
        lcg_key(350) == 0x00a1513c81914492u64,
        lcg_key(360) == 0xfbd959f59b3098e8u64,
        lcg_key(370) == 0x1948f16d22ef2feeu64,
        lcg_key(380) == 0x81d958a0a8ec1f24u64,
        lcg_key(390) == 0x6b282453e767280au64,
        lcg_key(400) == 0xc9f09b54dd061820u64,
        lcg_key(410) == 0xa2ef39a3034528e6u64,
        lcg_key(420) == 0xaf84e704d26a5fdcu64,
        lcg_key(430) == 0xae8faa82cf13ee82u64,
        lcg_key(440) == 0x7613431fbe399258u64,
        lcg_key(450) == 0x8fbf553d0338f4deu64,
{
    assert(lcg_key(0) == 0x123456789abcdef0u64);
    lemma_steps_0();
    lemma_steps_1();
    lemma_steps_2();
    lemma_steps_3();
    lemma_steps_4();
    lemma_steps_5();
    lemma_steps_6();
    lemma_steps_7();
    lemma_steps_8();
    lemma_steps_9();
    lemma_steps_10();
    lemma_steps_11();
    lemma_steps_12();
    lemma_steps_13();
    lemma_steps_14();
    lemma_steps_15();
    lemma_steps_16();
    lemma_steps_17();
    lemma_steps_18();
    lemma_steps_19();
    lemma_steps_20();
    lemma_steps_21();
    lemma_steps_22();
    lemma_steps_23();
    lemma_steps_24();
    lemma_steps_25();
    lemma_steps_26();
    lemma_steps_27();
    lemma_steps_28();
    lemma_steps_29();
    lemma_steps_30();
    lemma_steps_31();
    lemma_steps_32();
    lemma_steps_33();
    lemma_steps_34();
    lemma_steps_35();
    lemma_steps_36();
    lemma_steps_37();
    lemma_steps_38();
    lemma_steps_39();
    lemma_steps_40();
    lemma_steps_41();
    lemma_steps_42();
    lemma_steps_43();
    lemma_steps_44();
}

} // verus!
