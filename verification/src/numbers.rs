//! The numbers that the rules name, as the bit patterns of singles.

use vstd::prelude::*;

verus! {

/// 0.0
pub const ZERO: u32 = 0x0000_0000;

/// 1.0
pub const ONE: u32 = 0x3F80_0000;

/// -1.0
pub const MINUS_ONE: u32 = 0xBF80_0000;

/// 0.5
pub const HALF: u32 = 0x3F00_0000;

/// -5.0
pub const MINUS_FIVE: u32 = 0xC0A0_0000;

/// 5.0
pub const FIVE: u32 = 0x40A0_0000;

/// -100.0
pub const MINUS_HUNDRED: u32 = 0xC2C8_0000;

/// 100.0
pub const HUNDRED: u32 = 0x42C8_0000;

/// 150.0
pub const HUNDRED_FIFTY: u32 = 0x4316_0000;

/// 3.0
pub const THREE: u32 = 0x4040_0000;

/// 10.0
pub const TEN: u32 = 0x4120_0000;

/// 20.0
pub const TWENTY: u32 = 0x41A0_0000;

/// 50.0
pub const FIFTY: u32 = 0x4248_0000;

/// -45.0
pub const MINUS_FORTY_FIVE: u32 = 0xC234_0000;

/// 45.0
pub const FORTY_FIVE: u32 = 0x4234_0000;

/// 2000.0
pub const TWO_THOUSAND: u32 = 0x44FA_0000;

/// 40000.0
pub const FORTY_THOUSAND: u32 = 0x471C_4000;

/// 0.001
pub const ONE_THOUSANDTH: u32 = 0x3A83_126F;

/// 0.05
pub const ONE_TWENTIETH: u32 = 0x3D4C_CCCD;

/// 8.0
pub const EIGHT: u32 = 0x4100_0000;

/// -8.0
pub const MINUS_EIGHT: u32 = 0xC100_0000;

/// 0.25
pub const QUARTER: u32 = 0x3E80_0000;

/// 4.0
pub const FOUR: u32 = 0x4080_0000;

/// 0.7
pub const SEVEN_TENTHS: u32 = 0x3F33_3333;

/// 1.3
pub const THIRTEEN_TENTHS: u32 = 0x3FA6_6666;

/// 0.98
pub const NINETY_EIGHT_HUNDREDTHS: u32 = 0x3F7A_E148;

/// 1.02
pub const HUNDRED_TWO_HUNDREDTHS: u32 = 0x3F82_8F5C;

/// 360.0
pub const TURN: u32 = 0x43B4_0000;

/// 180.0
pub const HALF_TURN: u32 = 0x4334_0000;

/// 30.0
pub const THIRTY: u32 = 0x41F0_0000;

/// 40.0
pub const FORTY: u32 = 0x4220_0000;

/// 60.0
pub const SIXTY: u32 = 0x4270_0000;

/// 70.0
pub const SEVENTY: u32 = 0x428C_0000;

/// 0.3
pub const THREE_TENTHS: u32 = 0x3E99_999A;

/// 0.4
pub const TWO_FIFTHS: u32 = 0x3ECC_CCCD;

/// 0.65
pub const THIRTEEN_TWENTIETHS: u32 = 0x3F26_6666;

/// 2.0
pub const TWO: u32 = 0x4000_0000;

/// 1.1
pub const ELEVEN_TENTHS: u32 = 0x3F8C_CCCD;

/// 2.4
pub const TWELVE_FIFTHS: u32 = 0x4019_999A;

/// 3.2
pub const SIXTEEN_FIFTHS: u32 = 0x404C_CCCD;

/// 4.4
pub const TWENTY_TWO_FIFTHS: u32 = 0x408C_CCCD;

/// 1.2
pub const SIX_FIFTHS: u32 = 0x3F99_999A;

/// 1.15
pub const TWENTY_THREE_TWENTIETHS: u32 = 0x3F93_3333;

/// 24.0
pub const TWENTY_FOUR: u32 = 0x41C0_0000;

/// 0.02
pub const ONE_FIFTIETH: u32 = 0x3CA3_D70A;

/// 0.003
pub const THREE_THOUSANDTHS: u32 = 0x3B44_9BA6;

/// 0.08
pub const TWO_TWENTY_FIFTHS: u32 = 0x3DA3_D70A;

/// 255.0
pub const BYTE_TOP: u32 = 0x437F_0000;

/// 65535.0
pub const WORD_TOP: u32 = 0x477F_FF00;

/// Infinity
pub const INFINITY: u32 = 0x7F80_0000;

} // verus!
