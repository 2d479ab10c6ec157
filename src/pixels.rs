//! Pixel formats: the type of one component and the number of components.
use vstd::prelude::*;

verus! {

/// Number of components in one pixel, known from the type.
pub trait GetCount {
    spec fn spec_count() -> nat;

    fn count() -> (r: usize)
        ensures
            r as nat == Self::spec_count(),
    ;
}

/// Generic type that carries a count of components.
pub struct Count<const N: usize>;

impl<const N: usize> GetCount for Count<N> {
    open spec fn spec_count() -> nat {
        N as nat
    }

    fn count() -> (r: usize) {
        N
    }
}

/// Number of values that one component can take, known from the type.
pub trait GetCountOfValues {
    spec fn spec_count_of_values() -> nat;

    fn count_of_values() -> (r: usize)
        ensures
            r as nat == Self::spec_count_of_values(),
    ;
}

/// Generic type that carries a count of component values.
pub struct Values<const N: usize>;

impl<const N: usize> GetCountOfValues for Values<N> {
    open spec fn spec_count_of_values() -> nat {
        N as nat
    }

    fn count_of_values() -> (r: usize) {
        N
    }
}

/// One unsigned integer component of a pixel.
pub trait PixelComponent: Sized + Copy {
    /// The numeric value of the component.
    spec fn value(self) -> nat;

    /// The largest value a component can hold.
    spec fn max_value() -> nat;

    /// Size of the component in bytes.
    spec fn spec_size() -> nat;

    proof fn lemma_bounds(self)
        ensures
            self.value() <= Self::max_value(),
            Self::max_value() == 255 || Self::max_value() == 65535,
            Self::spec_size() == 1 || Self::spec_size() == 2,
    ;

    fn to_u32(self) -> (r: u32)
        ensures
            r as nat == self.value(),
            self.value() <= Self::max_value(),
            Self::max_value() == 255 || Self::max_value() == 65535,
    ;

    fn from_u32(v: u32) -> (r: Self)
        requires
            v as nat <= Self::max_value(),
        ensures
            r.value() == v as nat,
    ;

    fn max_u32() -> (r: u32)
        ensures
            r as nat == Self::max_value(),
            r == 255 || r == 65535,
    ;

    /// Count of values that one component can take.
    fn count_of_values() -> (r: usize)
        ensures
            r as nat == Self::max_value() + 1,
    ;

    /// Size of the component in bytes.
    fn size() -> (r: usize)
        ensures
            r as nat == Self::spec_size(),
            r == 1 || r == 2,
    ;
}

impl PixelComponent for u8 {
    open spec fn value(self) -> nat {
        self as nat
    }

    open spec fn max_value() -> nat {
        255
    }

    open spec fn spec_size() -> nat {
        1
    }

    proof fn lemma_bounds(self) {
    }

    fn to_u32(self) -> (r: u32) {
        self as u32
    }

    fn from_u32(v: u32) -> (r: Self) {
        v as u8
    }

    fn max_u32() -> (r: u32) {
        255
    }

    fn count_of_values() -> (r: usize) {
        256
    }

    fn size() -> (r: usize) {
        1
    }
}

impl PixelComponent for u16 {
    open spec fn value(self) -> nat {
        self as nat
    }

    open spec fn max_value() -> nat {
        65535
    }

    open spec fn spec_size() -> nat {
        2
    }

    proof fn lemma_bounds(self) {
    }

    fn to_u32(self) -> (r: u32) {
        self as u32
    }

    fn from_u32(v: u32) -> (r: Self) {
        v as u16
    }

    fn max_u32() -> (r: u32) {
        65535
    }

    fn count_of_values() -> (r: usize) {
        65536
    }

    fn size() -> (r: usize) {
        2
    }
}

/// A pixel format: its component type and its number of components (1 to 4).
pub trait PixelExt {
    type Component: PixelComponent;

    spec fn spec_count() -> nat;

    /// Count of the pixel's components.
    fn count_of_components() -> (r: usize)
        ensures
            r as nat == Self::spec_count(),
            1 <= r <= 4,
    ;

    /// Count of values that one component can take.
    fn count_of_component_values() -> (r: usize)
        ensures
            r as nat == <Self::Component as PixelComponent>::max_value() + 1,
    {
        Self::Component::count_of_values()
    }

    /// Size of the pixel in bytes.
    fn size() -> (r: usize)
        ensures
            r as nat == Self::spec_count() * <Self::Component as PixelComponent>::spec_size(),
    {
        let n = Self::count_of_components();
        let s = Self::Component::size();
        n * s
    }
}

/// A pixel with `N` components of type `C`.
pub struct Pixel<C, const N: usize>(pub [C; N]);

impl<C, const N: usize> Pixel<C, N> {
    pub fn new(components: [C; N]) -> (r: Self)
        ensures
            r.0 == components,
    {
        Pixel(components)
    }
}

/// One byte per pixel (e.g. L8).
pub type U8 = Pixel<u8, 1>;
/// Two bytes per pixel (e.g. LA8).
pub type U8x2 = Pixel<u8, 2>;
/// Three bytes per pixel (e.g. RGB8).
pub type U8x3 = Pixel<u8, 3>;
/// Four bytes per pixel (RGBA8, RGBx8, CMYK8 and other).
pub type U8x4 = Pixel<u8, 4>;
/// One `u16` component per pixel (e.g. L16).
pub type U16 = Pixel<u16, 1>;
/// Two `u16` components per pixel (e.g. LA16).
pub type U16x2 = Pixel<u16, 2>;
/// Three `u16` components per pixel (e.g. RGB16).
pub type U16x3 = Pixel<u16, 3>;
/// Four `u16` components per pixel (e.g. RGBA16).
pub type U16x4 = Pixel<u16, 4>;

impl PixelExt for Pixel<u8, 1> {
    type Component = u8;

    open spec fn spec_count() -> nat {
        1
    }

    fn count_of_components() -> (r: usize) {
        1
    }
}

impl PixelExt for Pixel<u8, 2> {
    type Component = u8;

    open spec fn spec_count() -> nat {
        2
    }

    fn count_of_components() -> (r: usize) {
        2
    }
}

impl PixelExt for Pixel<u8, 3> {
    type Component = u8;

    open spec fn spec_count() -> nat {
        3
    }

    fn count_of_components() -> (r: usize) {
        3
    }
}

impl PixelExt for Pixel<u8, 4> {
    type Component = u8;

    open spec fn spec_count() -> nat {
        4
    }

    fn count_of_components() -> (r: usize) {
        4
    }
}

impl PixelExt for Pixel<u16, 1> {
    type Component = u16;

    open spec fn spec_count() -> nat {
        1
    }

    fn count_of_components() -> (r: usize) {
        1
    }
}

impl PixelExt for Pixel<u16, 2> {
    type Component = u16;

    open spec fn spec_count() -> nat {
        2
    }

    fn count_of_components() -> (r: usize) {
        2
    }
}

impl PixelExt for Pixel<u16, 3> {
    type Component = u16;

    open spec fn spec_count() -> nat {
        3
    }

    fn count_of_components() -> (r: usize) {
        3
    }
}

impl PixelExt for Pixel<u16, 4> {
    type Component = u16;

    open spec fn spec_count() -> nat {
        4
    }

    fn count_of_components() -> (r: usize) {
        4
    }
}

/// Value of a component after conversion between component representations:
/// unchanged for equal ranges, the byte replicated (times 257) when widening
/// 8 to 16 bits, the high byte when narrowing 16 to 8 bits.
pub open spec fn converted_value(v: nat, from_max: nat, to_max: nat) -> nat {
    if from_max == to_max {
        v
    } else if from_max < to_max {
        v * 257
    } else {
        v / 256
    }
}

/// Conversion of a component into another component representation.
pub trait IntoPixelComponent<Out: PixelComponent>: PixelComponent {
    fn into_component(self) -> (r: Out)
        ensures
            r.value() == converted_value(
                self.value(),
                Self::max_value(),
                Out::max_value(),
            ),
    ;
}

impl IntoPixelComponent<u8> for u8 {
    fn into_component(self) -> (r: u8) {
        self
    }
}

impl IntoPixelComponent<u16> for u16 {
    fn into_component(self) -> (r: u16) {
        self
    }
}

impl IntoPixelComponent<u8> for u16 {
    fn into_component(self) -> (r: u8) {
        let high = self / 256;
        high as u8
    }
}

impl IntoPixelComponent<u16> for u8 {
    fn into_component(self) -> (r: u16) {
        (self as u16) * 257
    }
}

/// Widening a component from 8 to 16 bits and narrowing it back gives the
/// original value, for every 8-bit value.
pub proof fn lemma_widen_narrow_round_trip(v: u8)
    ensures
        converted_value(converted_value(v as nat, 255, 65535), 65535, 255) == v as nat,
{
    assert((v as nat * 257) / 256 == v as nat) by (nonlinear_arith)
        requires v as nat <= 255;
}

} // verus!
