use vstd::prelude::*;
use crate::model::Money;

verus! {

impl Money for u32 {
    open spec fn value(&self) -> int {
        *self as int
    }

    open spec fn representable(v: int) -> bool {
        0 <= v <= u32::MAX
    }

    proof fn lemma_value_representable(&self) {
    }

    fn exceeds(&self, other: &Self) -> (r: bool) {
        *self > *other
    }

    fn checked_less(&self, other: &Self) -> (r: Option<Self>) {
        self.checked_sub(*other)
    }

    fn checked_more(&self, other: &Self) -> (r: Option<Self>) {
        self.checked_add(*other)
    }
}

impl Money for u64 {
    open spec fn value(&self) -> int {
        *self as int
    }

    open spec fn representable(v: int) -> bool {
        0 <= v <= u64::MAX
    }

    proof fn lemma_value_representable(&self) {
    }

    fn exceeds(&self, other: &Self) -> (r: bool) {
        *self > *other
    }

    fn checked_less(&self, other: &Self) -> (r: Option<Self>) {
        self.checked_sub(*other)
    }

    fn checked_more(&self, other: &Self) -> (r: Option<Self>) {
        self.checked_add(*other)
    }
}

impl Money for i32 {
    open spec fn value(&self) -> int {
        *self as int
    }

    open spec fn representable(v: int) -> bool {
        i32::MIN <= v <= i32::MAX
    }

    proof fn lemma_value_representable(&self) {
    }

    fn exceeds(&self, other: &Self) -> (r: bool) {
        *self > *other
    }

    fn checked_less(&self, other: &Self) -> (r: Option<Self>) {
        self.checked_sub(*other)
    }

    fn checked_more(&self, other: &Self) -> (r: Option<Self>) {
        self.checked_add(*other)
    }
}

impl Money for i64 {
    open spec fn value(&self) -> int {
        *self as int
    }

    open spec fn representable(v: int) -> bool {
        i64::MIN <= v <= i64::MAX
    }

    proof fn lemma_value_representable(&self) {
    }

    fn exceeds(&self, other: &Self) -> (r: bool) {
        *self > *other
    }

    fn checked_less(&self, other: &Self) -> (r: Option<Self>) {
        self.checked_sub(*other)
    }

    fn checked_more(&self, other: &Self) -> (r: Option<Self>) {
        self.checked_add(*other)
    }
}

} // verus!
