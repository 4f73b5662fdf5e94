//! Fixed-width integers as range boundaries.

use vstd::prelude::*;
use vstd::string::*;
use std::cmp::Ordering;
use crate::extreme::{RangeExtreme, RangeExtremeDisplay, RangeExtremeFromStr, RangeExtremeText};
use crate::text::{
    signed_text, write_decimal, write_signed, int_at, int_error, read_int, InvalidNumber, lemma_run_end,
    lemma_int_read_back, lemma_decimal, decimal,
};

verus! {

impl RangeExtreme for u8 {
    open spec fn valid(v: u8) -> bool {
        true
    }

    open spec fn less(a: u8, b: u8) -> bool {
        a < b
    }

    open spec fn lowest() -> u8 {
        u8::MIN
    }

    open spec fn highest() -> u8 {
        u8::MAX
    }

    open spec fn successor(v: u8) -> u8 {
        (v + 1) as u8
    }

    proof fn lemma_order(a: u8, b: u8, c: u8) {
    }

    proof fn lemma_successor(a: u8, b: u8) {
    }

    proof fn lemma_extremes() {
    }

    fn min_extreme() -> (r: Self) {
        u8::MIN
    }

    fn max_extreme() -> (r: Self) {
        u8::MAX
    }

    fn next(self) -> (r: Self) {
        self + 1
    }

    fn compare(&self, other: &Self) -> (r: Ordering) {
        if *self < *other {
            Ordering::Less
        } else if *self == *other {
            Ordering::Equal
        } else {
            Ordering::Greater
        }
    }

    fn duplicate(&self) -> (r: Self) {
        *self
    }

    fn compare_next_to(&self, other: &Self) -> (r: bool) {
        *self < u8::MAX && *self + 1 == *other
    }
}

impl RangeExtreme for u16 {
    open spec fn valid(v: u16) -> bool {
        true
    }

    open spec fn less(a: u16, b: u16) -> bool {
        a < b
    }

    open spec fn lowest() -> u16 {
        u16::MIN
    }

    open spec fn highest() -> u16 {
        u16::MAX
    }

    open spec fn successor(v: u16) -> u16 {
        (v + 1) as u16
    }

    proof fn lemma_order(a: u16, b: u16, c: u16) {
    }

    proof fn lemma_successor(a: u16, b: u16) {
    }

    proof fn lemma_extremes() {
    }

    fn min_extreme() -> (r: Self) {
        u16::MIN
    }

    fn max_extreme() -> (r: Self) {
        u16::MAX
    }

    fn next(self) -> (r: Self) {
        self + 1
    }

    fn compare(&self, other: &Self) -> (r: Ordering) {
        if *self < *other {
            Ordering::Less
        } else if *self == *other {
            Ordering::Equal
        } else {
            Ordering::Greater
        }
    }

    fn duplicate(&self) -> (r: Self) {
        *self
    }

    fn compare_next_to(&self, other: &Self) -> (r: bool) {
        *self < u16::MAX && *self + 1 == *other
    }
}

impl RangeExtreme for u32 {
    open spec fn valid(v: u32) -> bool {
        true
    }

    open spec fn less(a: u32, b: u32) -> bool {
        a < b
    }

    open spec fn lowest() -> u32 {
        u32::MIN
    }

    open spec fn highest() -> u32 {
        u32::MAX
    }

    open spec fn successor(v: u32) -> u32 {
        (v + 1) as u32
    }

    proof fn lemma_order(a: u32, b: u32, c: u32) {
    }

    proof fn lemma_successor(a: u32, b: u32) {
    }

    proof fn lemma_extremes() {
    }

    fn min_extreme() -> (r: Self) {
        u32::MIN
    }

    fn max_extreme() -> (r: Self) {
        u32::MAX
    }

    fn next(self) -> (r: Self) {
        self + 1
    }

    fn compare(&self, other: &Self) -> (r: Ordering) {
        if *self < *other {
            Ordering::Less
        } else if *self == *other {
            Ordering::Equal
        } else {
            Ordering::Greater
        }
    }

    fn duplicate(&self) -> (r: Self) {
        *self
    }

    fn compare_next_to(&self, other: &Self) -> (r: bool) {
        *self < u32::MAX && *self + 1 == *other
    }
}

impl RangeExtreme for u64 {
    open spec fn valid(v: u64) -> bool {
        true
    }

    open spec fn less(a: u64, b: u64) -> bool {
        a < b
    }

    open spec fn lowest() -> u64 {
        u64::MIN
    }

    open spec fn highest() -> u64 {
        u64::MAX
    }

    open spec fn successor(v: u64) -> u64 {
        (v + 1) as u64
    }

    proof fn lemma_order(a: u64, b: u64, c: u64) {
    }

    proof fn lemma_successor(a: u64, b: u64) {
    }

    proof fn lemma_extremes() {
    }

    fn min_extreme() -> (r: Self) {
        u64::MIN
    }

    fn max_extreme() -> (r: Self) {
        u64::MAX
    }

    fn next(self) -> (r: Self) {
        self + 1
    }

    fn compare(&self, other: &Self) -> (r: Ordering) {
        if *self < *other {
            Ordering::Less
        } else if *self == *other {
            Ordering::Equal
        } else {
            Ordering::Greater
        }
    }

    fn duplicate(&self) -> (r: Self) {
        *self
    }

    fn compare_next_to(&self, other: &Self) -> (r: bool) {
        *self < u64::MAX && *self + 1 == *other
    }
}

impl RangeExtreme for u128 {
    open spec fn valid(v: u128) -> bool {
        true
    }

    open spec fn less(a: u128, b: u128) -> bool {
        a < b
    }

    open spec fn lowest() -> u128 {
        u128::MIN
    }

    open spec fn highest() -> u128 {
        u128::MAX
    }

    open spec fn successor(v: u128) -> u128 {
        (v + 1) as u128
    }

    proof fn lemma_order(a: u128, b: u128, c: u128) {
    }

    proof fn lemma_successor(a: u128, b: u128) {
    }

    proof fn lemma_extremes() {
    }

    fn min_extreme() -> (r: Self) {
        u128::MIN
    }

    fn max_extreme() -> (r: Self) {
        u128::MAX
    }

    fn next(self) -> (r: Self) {
        self + 1
    }

    fn compare(&self, other: &Self) -> (r: Ordering) {
        if *self < *other {
            Ordering::Less
        } else if *self == *other {
            Ordering::Equal
        } else {
            Ordering::Greater
        }
    }

    fn duplicate(&self) -> (r: Self) {
        *self
    }

    fn compare_next_to(&self, other: &Self) -> (r: bool) {
        *self < u128::MAX && *self + 1 == *other
    }
}

impl RangeExtreme for i8 {
    open spec fn valid(v: i8) -> bool {
        true
    }

    open spec fn less(a: i8, b: i8) -> bool {
        a < b
    }

    open spec fn lowest() -> i8 {
        i8::MIN
    }

    open spec fn highest() -> i8 {
        i8::MAX
    }

    open spec fn successor(v: i8) -> i8 {
        (v + 1) as i8
    }

    proof fn lemma_order(a: i8, b: i8, c: i8) {
    }

    proof fn lemma_successor(a: i8, b: i8) {
    }

    proof fn lemma_extremes() {
    }

    fn min_extreme() -> (r: Self) {
        i8::MIN
    }

    fn max_extreme() -> (r: Self) {
        i8::MAX
    }

    fn next(self) -> (r: Self) {
        self + 1
    }

    fn compare(&self, other: &Self) -> (r: Ordering) {
        if *self < *other {
            Ordering::Less
        } else if *self == *other {
            Ordering::Equal
        } else {
            Ordering::Greater
        }
    }

    fn duplicate(&self) -> (r: Self) {
        *self
    }

    fn compare_next_to(&self, other: &Self) -> (r: bool) {
        *self < i8::MAX && *self + 1 == *other
    }
}

impl RangeExtreme for i16 {
    open spec fn valid(v: i16) -> bool {
        true
    }

    open spec fn less(a: i16, b: i16) -> bool {
        a < b
    }

    open spec fn lowest() -> i16 {
        i16::MIN
    }

    open spec fn highest() -> i16 {
        i16::MAX
    }

    open spec fn successor(v: i16) -> i16 {
        (v + 1) as i16
    }

    proof fn lemma_order(a: i16, b: i16, c: i16) {
    }

    proof fn lemma_successor(a: i16, b: i16) {
    }

    proof fn lemma_extremes() {
    }

    fn min_extreme() -> (r: Self) {
        i16::MIN
    }

    fn max_extreme() -> (r: Self) {
        i16::MAX
    }

    fn next(self) -> (r: Self) {
        self + 1
    }

    fn compare(&self, other: &Self) -> (r: Ordering) {
        if *self < *other {
            Ordering::Less
        } else if *self == *other {
            Ordering::Equal
        } else {
            Ordering::Greater
        }
    }

    fn duplicate(&self) -> (r: Self) {
        *self
    }

    fn compare_next_to(&self, other: &Self) -> (r: bool) {
        *self < i16::MAX && *self + 1 == *other
    }
}

impl RangeExtreme for i32 {
    open spec fn valid(v: i32) -> bool {
        true
    }

    open spec fn less(a: i32, b: i32) -> bool {
        a < b
    }

    open spec fn lowest() -> i32 {
        i32::MIN
    }

    open spec fn highest() -> i32 {
        i32::MAX
    }

    open spec fn successor(v: i32) -> i32 {
        (v + 1) as i32
    }

    proof fn lemma_order(a: i32, b: i32, c: i32) {
    }

    proof fn lemma_successor(a: i32, b: i32) {
    }

    proof fn lemma_extremes() {
    }

    fn min_extreme() -> (r: Self) {
        i32::MIN
    }

    fn max_extreme() -> (r: Self) {
        i32::MAX
    }

    fn next(self) -> (r: Self) {
        self + 1
    }

    fn compare(&self, other: &Self) -> (r: Ordering) {
        if *self < *other {
            Ordering::Less
        } else if *self == *other {
            Ordering::Equal
        } else {
            Ordering::Greater
        }
    }

    fn duplicate(&self) -> (r: Self) {
        *self
    }

    fn compare_next_to(&self, other: &Self) -> (r: bool) {
        *self < i32::MAX && *self + 1 == *other
    }
}

impl RangeExtreme for i64 {
    open spec fn valid(v: i64) -> bool {
        true
    }

    open spec fn less(a: i64, b: i64) -> bool {
        a < b
    }

    open spec fn lowest() -> i64 {
        i64::MIN
    }

    open spec fn highest() -> i64 {
        i64::MAX
    }

    open spec fn successor(v: i64) -> i64 {
        (v + 1) as i64
    }

    proof fn lemma_order(a: i64, b: i64, c: i64) {
    }

    proof fn lemma_successor(a: i64, b: i64) {
    }

    proof fn lemma_extremes() {
    }

    fn min_extreme() -> (r: Self) {
        i64::MIN
    }

    fn max_extreme() -> (r: Self) {
        i64::MAX
    }

    fn next(self) -> (r: Self) {
        self + 1
    }

    fn compare(&self, other: &Self) -> (r: Ordering) {
        if *self < *other {
            Ordering::Less
        } else if *self == *other {
            Ordering::Equal
        } else {
            Ordering::Greater
        }
    }

    fn duplicate(&self) -> (r: Self) {
        *self
    }

    fn compare_next_to(&self, other: &Self) -> (r: bool) {
        *self < i64::MAX && *self + 1 == *other
    }
}

impl RangeExtreme for i128 {
    open spec fn valid(v: i128) -> bool {
        true
    }

    open spec fn less(a: i128, b: i128) -> bool {
        a < b
    }

    open spec fn lowest() -> i128 {
        i128::MIN
    }

    open spec fn highest() -> i128 {
        i128::MAX
    }

    open spec fn successor(v: i128) -> i128 {
        (v + 1) as i128
    }

    proof fn lemma_order(a: i128, b: i128, c: i128) {
    }

    proof fn lemma_successor(a: i128, b: i128) {
    }

    proof fn lemma_extremes() {
    }

    fn min_extreme() -> (r: Self) {
        i128::MIN
    }

    fn max_extreme() -> (r: Self) {
        i128::MAX
    }

    fn next(self) -> (r: Self) {
        self + 1
    }

    fn compare(&self, other: &Self) -> (r: Ordering) {
        if *self < *other {
            Ordering::Less
        } else if *self == *other {
            Ordering::Equal
        } else {
            Ordering::Greater
        }
    }

    fn duplicate(&self) -> (r: Self) {
        *self
    }

    fn compare_next_to(&self, other: &Self) -> (r: bool) {
        *self < i128::MAX && *self + 1 == *other
    }
}


impl RangeExtremeDisplay for u8 {
    open spec fn has_previous(v: u8) -> bool {
        v > u8::MIN
    }

    open spec fn previous(v: u8) -> u8 {
        (v - 1) as u8
    }

    open spec fn text(v: u8) -> Seq<char> {
        signed_text(v as int)
    }

    proof fn lemma_previous(v: u8) {
    }

    fn has_prev(&self) -> (r: bool) {
        *self > u8::MIN
    }

    fn display(&self) -> (r: String) {
        write_decimal(*self as u128)
    }

    fn display_prev(&self) -> (r: Option<String>) {
        if *self > u8::MIN {
            Some(write_decimal((*self - 1) as u128))
        } else {
            None
        }
    }
}

impl RangeExtremeFromStr for u8 {
    type Err = InvalidNumber;

    open spec fn value_at(s: Seq<char>, i: int) -> Option<(u8, int)> {
        match int_at(s, i, u8::MIN as int, u8::MAX as int) {
            Some((v, j)) => Some((v as u8, j)),
            None => None,
        }
    }

    open spec fn error_at(s: Seq<char>, i: int, e: InvalidNumber) -> bool {
        int_error(s, i, u8::MIN as int, e)
    }

    proof fn lemma_value_at(s: Seq<char>, i: int) {
        lemma_run_end(s, i);
        if i < s.len() {
            lemma_run_end(s, i + 1);
        }
    }

    fn parse_at(s: &str, i: usize) -> (r: Result<(u8, usize), InvalidNumber>) {
        match read_int(s, i, 0, u8::MAX as u128) {
            Ok((neg, m, j)) => {
                let v = m as u8;
                Ok((v, j))
            },
            Err(e) => Err(e),
        }
    }
}

impl RangeExtremeDisplay for u16 {
    open spec fn has_previous(v: u16) -> bool {
        v > u16::MIN
    }

    open spec fn previous(v: u16) -> u16 {
        (v - 1) as u16
    }

    open spec fn text(v: u16) -> Seq<char> {
        signed_text(v as int)
    }

    proof fn lemma_previous(v: u16) {
    }

    fn has_prev(&self) -> (r: bool) {
        *self > u16::MIN
    }

    fn display(&self) -> (r: String) {
        write_decimal(*self as u128)
    }

    fn display_prev(&self) -> (r: Option<String>) {
        if *self > u16::MIN {
            Some(write_decimal((*self - 1) as u128))
        } else {
            None
        }
    }
}

impl RangeExtremeFromStr for u16 {
    type Err = InvalidNumber;

    open spec fn value_at(s: Seq<char>, i: int) -> Option<(u16, int)> {
        match int_at(s, i, u16::MIN as int, u16::MAX as int) {
            Some((v, j)) => Some((v as u16, j)),
            None => None,
        }
    }

    open spec fn error_at(s: Seq<char>, i: int, e: InvalidNumber) -> bool {
        int_error(s, i, u16::MIN as int, e)
    }

    proof fn lemma_value_at(s: Seq<char>, i: int) {
        lemma_run_end(s, i);
        if i < s.len() {
            lemma_run_end(s, i + 1);
        }
    }

    fn parse_at(s: &str, i: usize) -> (r: Result<(u16, usize), InvalidNumber>) {
        match read_int(s, i, 0, u16::MAX as u128) {
            Ok((neg, m, j)) => {
                let v = m as u16;
                Ok((v, j))
            },
            Err(e) => Err(e),
        }
    }
}

impl RangeExtremeDisplay for u32 {
    open spec fn has_previous(v: u32) -> bool {
        v > u32::MIN
    }

    open spec fn previous(v: u32) -> u32 {
        (v - 1) as u32
    }

    open spec fn text(v: u32) -> Seq<char> {
        signed_text(v as int)
    }

    proof fn lemma_previous(v: u32) {
    }

    fn has_prev(&self) -> (r: bool) {
        *self > u32::MIN
    }

    fn display(&self) -> (r: String) {
        write_decimal(*self as u128)
    }

    fn display_prev(&self) -> (r: Option<String>) {
        if *self > u32::MIN {
            Some(write_decimal((*self - 1) as u128))
        } else {
            None
        }
    }
}

impl RangeExtremeFromStr for u32 {
    type Err = InvalidNumber;

    open spec fn value_at(s: Seq<char>, i: int) -> Option<(u32, int)> {
        match int_at(s, i, u32::MIN as int, u32::MAX as int) {
            Some((v, j)) => Some((v as u32, j)),
            None => None,
        }
    }

    open spec fn error_at(s: Seq<char>, i: int, e: InvalidNumber) -> bool {
        int_error(s, i, u32::MIN as int, e)
    }

    proof fn lemma_value_at(s: Seq<char>, i: int) {
        lemma_run_end(s, i);
        if i < s.len() {
            lemma_run_end(s, i + 1);
        }
    }

    fn parse_at(s: &str, i: usize) -> (r: Result<(u32, usize), InvalidNumber>) {
        match read_int(s, i, 0, u32::MAX as u128) {
            Ok((neg, m, j)) => {
                let v = m as u32;
                Ok((v, j))
            },
            Err(e) => Err(e),
        }
    }
}

impl RangeExtremeDisplay for u64 {
    open spec fn has_previous(v: u64) -> bool {
        v > u64::MIN
    }

    open spec fn previous(v: u64) -> u64 {
        (v - 1) as u64
    }

    open spec fn text(v: u64) -> Seq<char> {
        signed_text(v as int)
    }

    proof fn lemma_previous(v: u64) {
    }

    fn has_prev(&self) -> (r: bool) {
        *self > u64::MIN
    }

    fn display(&self) -> (r: String) {
        write_decimal(*self as u128)
    }

    fn display_prev(&self) -> (r: Option<String>) {
        if *self > u64::MIN {
            Some(write_decimal((*self - 1) as u128))
        } else {
            None
        }
    }
}

impl RangeExtremeFromStr for u64 {
    type Err = InvalidNumber;

    open spec fn value_at(s: Seq<char>, i: int) -> Option<(u64, int)> {
        match int_at(s, i, u64::MIN as int, u64::MAX as int) {
            Some((v, j)) => Some((v as u64, j)),
            None => None,
        }
    }

    open spec fn error_at(s: Seq<char>, i: int, e: InvalidNumber) -> bool {
        int_error(s, i, u64::MIN as int, e)
    }

    proof fn lemma_value_at(s: Seq<char>, i: int) {
        lemma_run_end(s, i);
        if i < s.len() {
            lemma_run_end(s, i + 1);
        }
    }

    fn parse_at(s: &str, i: usize) -> (r: Result<(u64, usize), InvalidNumber>) {
        match read_int(s, i, 0, u64::MAX as u128) {
            Ok((neg, m, j)) => {
                let v = m as u64;
                Ok((v, j))
            },
            Err(e) => Err(e),
        }
    }
}

impl RangeExtremeDisplay for u128 {
    open spec fn has_previous(v: u128) -> bool {
        v > u128::MIN
    }

    open spec fn previous(v: u128) -> u128 {
        (v - 1) as u128
    }

    open spec fn text(v: u128) -> Seq<char> {
        signed_text(v as int)
    }

    proof fn lemma_previous(v: u128) {
    }

    fn has_prev(&self) -> (r: bool) {
        *self > u128::MIN
    }

    fn display(&self) -> (r: String) {
        write_decimal(*self as u128)
    }

    fn display_prev(&self) -> (r: Option<String>) {
        if *self > u128::MIN {
            Some(write_decimal((*self - 1) as u128))
        } else {
            None
        }
    }
}

impl RangeExtremeFromStr for u128 {
    type Err = InvalidNumber;

    open spec fn value_at(s: Seq<char>, i: int) -> Option<(u128, int)> {
        match int_at(s, i, u128::MIN as int, u128::MAX as int) {
            Some((v, j)) => Some((v as u128, j)),
            None => None,
        }
    }

    open spec fn error_at(s: Seq<char>, i: int, e: InvalidNumber) -> bool {
        int_error(s, i, u128::MIN as int, e)
    }

    proof fn lemma_value_at(s: Seq<char>, i: int) {
        lemma_run_end(s, i);
        if i < s.len() {
            lemma_run_end(s, i + 1);
        }
    }

    fn parse_at(s: &str, i: usize) -> (r: Result<(u128, usize), InvalidNumber>) {
        match read_int(s, i, 0, u128::MAX as u128) {
            Ok((neg, m, j)) => {
                let v = m as u128;
                Ok((v, j))
            },
            Err(e) => Err(e),
        }
    }
}

impl RangeExtremeDisplay for i8 {
    open spec fn has_previous(v: i8) -> bool {
        v > i8::MIN
    }

    open spec fn previous(v: i8) -> i8 {
        (v - 1) as i8
    }

    open spec fn text(v: i8) -> Seq<char> {
        signed_text(v as int)
    }

    proof fn lemma_previous(v: i8) {
    }

    fn has_prev(&self) -> (r: bool) {
        *self > i8::MIN
    }

    fn display(&self) -> (r: String) {
        write_signed(*self as i128)
    }

    fn display_prev(&self) -> (r: Option<String>) {
        if *self > i8::MIN {
            Some(write_signed((*self - 1) as i128))
        } else {
            None
        }
    }
}

impl RangeExtremeFromStr for i8 {
    type Err = InvalidNumber;

    open spec fn value_at(s: Seq<char>, i: int) -> Option<(i8, int)> {
        match int_at(s, i, i8::MIN as int, i8::MAX as int) {
            Some((v, j)) => Some((v as i8, j)),
            None => None,
        }
    }

    open spec fn error_at(s: Seq<char>, i: int, e: InvalidNumber) -> bool {
        int_error(s, i, i8::MIN as int, e)
    }

    proof fn lemma_value_at(s: Seq<char>, i: int) {
        lemma_run_end(s, i);
        if i < s.len() {
            lemma_run_end(s, i + 1);
        }
    }

    fn parse_at(s: &str, i: usize) -> (r: Result<(i8, usize), InvalidNumber>) {
        match read_int(s, i, (i8::MAX as u128) + 1, i8::MAX as u128) {
            Ok((neg, m, j)) => {
                let v = if neg {
                    if m == (i8::MAX as u128) + 1 {
                        i8::MIN
                    } else {
                        -(m as i8)
                    }
                } else {
                    m as i8
                };
                Ok((v, j))
            },
            Err(e) => Err(e),
        }
    }
}

impl RangeExtremeDisplay for i16 {
    open spec fn has_previous(v: i16) -> bool {
        v > i16::MIN
    }

    open spec fn previous(v: i16) -> i16 {
        (v - 1) as i16
    }

    open spec fn text(v: i16) -> Seq<char> {
        signed_text(v as int)
    }

    proof fn lemma_previous(v: i16) {
    }

    fn has_prev(&self) -> (r: bool) {
        *self > i16::MIN
    }

    fn display(&self) -> (r: String) {
        write_signed(*self as i128)
    }

    fn display_prev(&self) -> (r: Option<String>) {
        if *self > i16::MIN {
            Some(write_signed((*self - 1) as i128))
        } else {
            None
        }
    }
}

impl RangeExtremeFromStr for i16 {
    type Err = InvalidNumber;

    open spec fn value_at(s: Seq<char>, i: int) -> Option<(i16, int)> {
        match int_at(s, i, i16::MIN as int, i16::MAX as int) {
            Some((v, j)) => Some((v as i16, j)),
            None => None,
        }
    }

    open spec fn error_at(s: Seq<char>, i: int, e: InvalidNumber) -> bool {
        int_error(s, i, i16::MIN as int, e)
    }

    proof fn lemma_value_at(s: Seq<char>, i: int) {
        lemma_run_end(s, i);
        if i < s.len() {
            lemma_run_end(s, i + 1);
        }
    }

    fn parse_at(s: &str, i: usize) -> (r: Result<(i16, usize), InvalidNumber>) {
        match read_int(s, i, (i16::MAX as u128) + 1, i16::MAX as u128) {
            Ok((neg, m, j)) => {
                let v = if neg {
                    if m == (i16::MAX as u128) + 1 {
                        i16::MIN
                    } else {
                        -(m as i16)
                    }
                } else {
                    m as i16
                };
                Ok((v, j))
            },
            Err(e) => Err(e),
        }
    }
}

impl RangeExtremeDisplay for i32 {
    open spec fn has_previous(v: i32) -> bool {
        v > i32::MIN
    }

    open spec fn previous(v: i32) -> i32 {
        (v - 1) as i32
    }

    open spec fn text(v: i32) -> Seq<char> {
        signed_text(v as int)
    }

    proof fn lemma_previous(v: i32) {
    }

    fn has_prev(&self) -> (r: bool) {
        *self > i32::MIN
    }

    fn display(&self) -> (r: String) {
        write_signed(*self as i128)
    }

    fn display_prev(&self) -> (r: Option<String>) {
        if *self > i32::MIN {
            Some(write_signed((*self - 1) as i128))
        } else {
            None
        }
    }
}

impl RangeExtremeFromStr for i32 {
    type Err = InvalidNumber;

    open spec fn value_at(s: Seq<char>, i: int) -> Option<(i32, int)> {
        match int_at(s, i, i32::MIN as int, i32::MAX as int) {
            Some((v, j)) => Some((v as i32, j)),
            None => None,
        }
    }

    open spec fn error_at(s: Seq<char>, i: int, e: InvalidNumber) -> bool {
        int_error(s, i, i32::MIN as int, e)
    }

    proof fn lemma_value_at(s: Seq<char>, i: int) {
        lemma_run_end(s, i);
        if i < s.len() {
            lemma_run_end(s, i + 1);
        }
    }

    fn parse_at(s: &str, i: usize) -> (r: Result<(i32, usize), InvalidNumber>) {
        match read_int(s, i, (i32::MAX as u128) + 1, i32::MAX as u128) {
            Ok((neg, m, j)) => {
                let v = if neg {
                    if m == (i32::MAX as u128) + 1 {
                        i32::MIN
                    } else {
                        -(m as i32)
                    }
                } else {
                    m as i32
                };
                Ok((v, j))
            },
            Err(e) => Err(e),
        }
    }
}

impl RangeExtremeDisplay for i64 {
    open spec fn has_previous(v: i64) -> bool {
        v > i64::MIN
    }

    open spec fn previous(v: i64) -> i64 {
        (v - 1) as i64
    }

    open spec fn text(v: i64) -> Seq<char> {
        signed_text(v as int)
    }

    proof fn lemma_previous(v: i64) {
    }

    fn has_prev(&self) -> (r: bool) {
        *self > i64::MIN
    }

    fn display(&self) -> (r: String) {
        write_signed(*self as i128)
    }

    fn display_prev(&self) -> (r: Option<String>) {
        if *self > i64::MIN {
            Some(write_signed((*self - 1) as i128))
        } else {
            None
        }
    }
}

impl RangeExtremeFromStr for i64 {
    type Err = InvalidNumber;

    open spec fn value_at(s: Seq<char>, i: int) -> Option<(i64, int)> {
        match int_at(s, i, i64::MIN as int, i64::MAX as int) {
            Some((v, j)) => Some((v as i64, j)),
            None => None,
        }
    }

    open spec fn error_at(s: Seq<char>, i: int, e: InvalidNumber) -> bool {
        int_error(s, i, i64::MIN as int, e)
    }

    proof fn lemma_value_at(s: Seq<char>, i: int) {
        lemma_run_end(s, i);
        if i < s.len() {
            lemma_run_end(s, i + 1);
        }
    }

    fn parse_at(s: &str, i: usize) -> (r: Result<(i64, usize), InvalidNumber>) {
        match read_int(s, i, (i64::MAX as u128) + 1, i64::MAX as u128) {
            Ok((neg, m, j)) => {
                let v = if neg {
                    if m == (i64::MAX as u128) + 1 {
                        i64::MIN
                    } else {
                        -(m as i64)
                    }
                } else {
                    m as i64
                };
                Ok((v, j))
            },
            Err(e) => Err(e),
        }
    }
}

impl RangeExtremeDisplay for i128 {
    open spec fn has_previous(v: i128) -> bool {
        v > i128::MIN
    }

    open spec fn previous(v: i128) -> i128 {
        (v - 1) as i128
    }

    open spec fn text(v: i128) -> Seq<char> {
        signed_text(v as int)
    }

    proof fn lemma_previous(v: i128) {
    }

    fn has_prev(&self) -> (r: bool) {
        *self > i128::MIN
    }

    fn display(&self) -> (r: String) {
        write_signed(*self as i128)
    }

    fn display_prev(&self) -> (r: Option<String>) {
        if *self > i128::MIN {
            Some(write_signed((*self - 1) as i128))
        } else {
            None
        }
    }
}

impl RangeExtremeFromStr for i128 {
    type Err = InvalidNumber;

    open spec fn value_at(s: Seq<char>, i: int) -> Option<(i128, int)> {
        match int_at(s, i, i128::MIN as int, i128::MAX as int) {
            Some((v, j)) => Some((v as i128, j)),
            None => None,
        }
    }

    open spec fn error_at(s: Seq<char>, i: int, e: InvalidNumber) -> bool {
        int_error(s, i, i128::MIN as int, e)
    }

    proof fn lemma_value_at(s: Seq<char>, i: int) {
        lemma_run_end(s, i);
        if i < s.len() {
            lemma_run_end(s, i + 1);
        }
    }

    fn parse_at(s: &str, i: usize) -> (r: Result<(i128, usize), InvalidNumber>) {
        match read_int(s, i, (i128::MAX as u128) + 1, i128::MAX as u128) {
            Ok((neg, m, j)) => {
                let v = if neg {
                    if m == (i128::MAX as u128) + 1 {
                        i128::MIN
                    } else {
                        -(m as i128)
                    }
                } else {
                    m as i128
                };
                Ok((v, j))
            },
            Err(e) => Err(e),
        }
    }
}

impl RangeExtremeText for u8 {
    open spec fn writable(v: u8) -> bool {
        true
    }

    proof fn lemma_writable(v: u8) {
        if v < 0 {
            lemma_decimal((-v) as nat);
        } else {
            lemma_decimal(v as nat);
            assert(signed_text(v as int)[0] == decimal(v as nat)[0]);
        }
    }

    proof fn lemma_read_back(s: Seq<char>, i: int, v: u8) {
        lemma_int_read_back(s, i, v as int, u8::MIN as int, u8::MAX as int);
    }

    proof fn lemma_read_writable(s: Seq<char>, i: int) {
    }
}

impl RangeExtremeText for u16 {
    open spec fn writable(v: u16) -> bool {
        true
    }

    proof fn lemma_writable(v: u16) {
        if v < 0 {
            lemma_decimal((-v) as nat);
        } else {
            lemma_decimal(v as nat);
            assert(signed_text(v as int)[0] == decimal(v as nat)[0]);
        }
    }

    proof fn lemma_read_back(s: Seq<char>, i: int, v: u16) {
        lemma_int_read_back(s, i, v as int, u16::MIN as int, u16::MAX as int);
    }

    proof fn lemma_read_writable(s: Seq<char>, i: int) {
    }
}

impl RangeExtremeText for u32 {
    open spec fn writable(v: u32) -> bool {
        true
    }

    proof fn lemma_writable(v: u32) {
        if v < 0 {
            lemma_decimal((-v) as nat);
        } else {
            lemma_decimal(v as nat);
            assert(signed_text(v as int)[0] == decimal(v as nat)[0]);
        }
    }

    proof fn lemma_read_back(s: Seq<char>, i: int, v: u32) {
        lemma_int_read_back(s, i, v as int, u32::MIN as int, u32::MAX as int);
    }

    proof fn lemma_read_writable(s: Seq<char>, i: int) {
    }
}

impl RangeExtremeText for u64 {
    open spec fn writable(v: u64) -> bool {
        true
    }

    proof fn lemma_writable(v: u64) {
        if v < 0 {
            lemma_decimal((-v) as nat);
        } else {
            lemma_decimal(v as nat);
            assert(signed_text(v as int)[0] == decimal(v as nat)[0]);
        }
    }

    proof fn lemma_read_back(s: Seq<char>, i: int, v: u64) {
        lemma_int_read_back(s, i, v as int, u64::MIN as int, u64::MAX as int);
    }

    proof fn lemma_read_writable(s: Seq<char>, i: int) {
    }
}

impl RangeExtremeText for u128 {
    open spec fn writable(v: u128) -> bool {
        true
    }

    proof fn lemma_writable(v: u128) {
        if v < 0 {
            lemma_decimal((-v) as nat);
        } else {
            lemma_decimal(v as nat);
            assert(signed_text(v as int)[0] == decimal(v as nat)[0]);
        }
    }

    proof fn lemma_read_back(s: Seq<char>, i: int, v: u128) {
        lemma_int_read_back(s, i, v as int, u128::MIN as int, u128::MAX as int);
    }

    proof fn lemma_read_writable(s: Seq<char>, i: int) {
    }
}

impl RangeExtremeText for i8 {
    open spec fn writable(v: i8) -> bool {
        true
    }

    proof fn lemma_writable(v: i8) {
        if v < 0 {
            lemma_decimal((-v) as nat);
        } else {
            lemma_decimal(v as nat);
            assert(signed_text(v as int)[0] == decimal(v as nat)[0]);
        }
    }

    proof fn lemma_read_back(s: Seq<char>, i: int, v: i8) {
        lemma_int_read_back(s, i, v as int, i8::MIN as int, i8::MAX as int);
    }

    proof fn lemma_read_writable(s: Seq<char>, i: int) {
    }
}

impl RangeExtremeText for i16 {
    open spec fn writable(v: i16) -> bool {
        true
    }

    proof fn lemma_writable(v: i16) {
        if v < 0 {
            lemma_decimal((-v) as nat);
        } else {
            lemma_decimal(v as nat);
            assert(signed_text(v as int)[0] == decimal(v as nat)[0]);
        }
    }

    proof fn lemma_read_back(s: Seq<char>, i: int, v: i16) {
        lemma_int_read_back(s, i, v as int, i16::MIN as int, i16::MAX as int);
    }

    proof fn lemma_read_writable(s: Seq<char>, i: int) {
    }
}

impl RangeExtremeText for i32 {
    open spec fn writable(v: i32) -> bool {
        true
    }

    proof fn lemma_writable(v: i32) {
        if v < 0 {
            lemma_decimal((-v) as nat);
        } else {
            lemma_decimal(v as nat);
            assert(signed_text(v as int)[0] == decimal(v as nat)[0]);
        }
    }

    proof fn lemma_read_back(s: Seq<char>, i: int, v: i32) {
        lemma_int_read_back(s, i, v as int, i32::MIN as int, i32::MAX as int);
    }

    proof fn lemma_read_writable(s: Seq<char>, i: int) {
    }
}

impl RangeExtremeText for i64 {
    open spec fn writable(v: i64) -> bool {
        true
    }

    proof fn lemma_writable(v: i64) {
        if v < 0 {
            lemma_decimal((-v) as nat);
        } else {
            lemma_decimal(v as nat);
            assert(signed_text(v as int)[0] == decimal(v as nat)[0]);
        }
    }

    proof fn lemma_read_back(s: Seq<char>, i: int, v: i64) {
        lemma_int_read_back(s, i, v as int, i64::MIN as int, i64::MAX as int);
    }

    proof fn lemma_read_writable(s: Seq<char>, i: int) {
    }
}

impl RangeExtremeText for i128 {
    open spec fn writable(v: i128) -> bool {
        true
    }

    proof fn lemma_writable(v: i128) {
        if v < 0 {
            lemma_decimal((-v) as nat);
        } else {
            lemma_decimal(v as nat);
            assert(signed_text(v as int)[0] == decimal(v as nat)[0]);
        }
    }

    proof fn lemma_read_back(s: Seq<char>, i: int, v: i128) {
        lemma_int_read_back(s, i, v as int, i128::MIN as int, i128::MAX as int);
    }

    proof fn lemma_read_writable(s: Seq<char>, i: int) {
    }
}

} // verus!
