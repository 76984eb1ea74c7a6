use crate::Solution;
use std::collections::HashMap;
use vstd::prelude::*;
use vstd::string::StrSliceExecFns;

verus! {

/// A node of a singly linked list.
#[derive(PartialEq, Eq, Debug)]
pub struct ListNode {
    pub val: i32,
    pub next: Option<Box<ListNode>>,
}

impl ListNode {
    /// A list of one value.
    #[inline]
    pub fn new(val: i32) -> (r: Self)
        ensures
            r.val == val,
            r.next is None,
    {
        ListNode { next: None, val }
    }
}

/// A node of a binary tree.
#[derive(Debug, PartialEq, Eq)]
pub struct TreeNode {
    pub val: i32,
    pub left: Option<Box<TreeNode>>,
    pub right: Option<Box<TreeNode>>,
}

impl TreeNode {
    /// A tree of one value.
    #[inline]
    pub fn new(val: i32) -> (r: Self)
        ensures
            r.val == val,
            r.left is None,
            r.right is None,
    {
        TreeNode { val, left: None, right: None }
    }
}

/// `String::push` appends the given character to the end of the string.
pub assume_specification[ String::push ](s: &mut String, ch: char)
    ensures
        final(s)@ == old(s)@.push(ch),
;

/// Whether the values at `j` and at the later place `i` add up to `target`.
pub open spec fn is_pair(nums: Seq<i32>, target: i32, i: int, j: int) -> bool {
    0 <= j < i < nums.len() && nums[j] + nums[i] == target
}

/// The predicate "is not zero".
pub open spec fn nonzero() -> spec_fn(i32) -> bool {
    |x: i32| x != 0
}

/// The first `rounds` rounds of the alternate merge: each round takes the
/// next character of `a`, if `a` has one left, and then the next of `b`.
pub open spec fn merge_rounds(a: Seq<char>, b: Seq<char>, rounds: nat) -> Seq<char>
    decreases rounds,
{
    if rounds == 0 {
        Seq::empty()
    } else {
        let k = rounds - 1;
        merge_rounds(a, b, k as nat) + (if k < a.len() {
            seq![a[k]]
        } else {
            Seq::empty()
        }) + (if k < b.len() {
            seq![b[k]]
        } else {
            Seq::empty()
        })
    }
}

/// The values of a list, first node first.
pub open spec fn list_view(l: Option<Box<ListNode>>) -> Seq<i32>
    decreases l,
{
    match l {
        None => Seq::empty(),
        Some(node) => seq![node.val] + list_view(node.next),
    }
}

/// Whether every value is a decimal digit.
pub open spec fn all_digits(s: Seq<i32>) -> bool {
    forall|i: int| 0 <= i < s.len() ==> 0 <= #[trigger] s[i] <= 9
}

/// The number that the digits stand for, the lowest digit first.
pub open spec fn number(s: Seq<i32>) -> int
    decreases s.len(),
{
    if s.len() == 0 {
        0
    } else {
        s[0] + 10 * number(s.skip(1))
    }
}

/// Ten to the power `n`.
pub open spec fn pow10(n: nat) -> int
    decreases n,
{
    if n == 0 {
        1
    } else {
        10 * pow10((n - 1) as nat)
    }
}

/// The larger of two lengths.
pub open spec fn longer(a: nat, b: nat) -> nat {
    if a >= b {
        a
    } else {
        b
    }
}

/// Powers of ten are positive and grow with the exponent.
pub proof fn lemma_pow10_grows(m: nat, n: nat)
    requires
        m <= n,
    ensures
        1 <= pow10(m) <= pow10(n),
    decreases n,
{
    if n > 0 {
        if m < n {
            lemma_pow10_grows(m, (n - 1) as nat);
        } else {
            lemma_pow10_grows((m - 1) as nat, (n - 1) as nat);
        }
    }
}

/// The number of `n` digits is not negative and below ten to the `n`.
pub proof fn lemma_number_bound(s: Seq<i32>)
    requires
        all_digits(s),
    ensures
        0 <= number(s) < pow10(s.len()),
    decreases s.len(),
{
    if s.len() > 0 {
        assert(all_digits(s.skip(1))) by {
            assert forall|i: int| 0 <= i < s.skip(1).len() implies 0 <= #[trigger] s.skip(1)[i]
                <= 9 by {
                assert(s.skip(1)[i] == s[i + 1]);
            }
        }
        lemma_number_bound(s.skip(1));
    }
}

/// Whether `c` is one of the five vowels, small or capital.
pub open spec fn is_vowel(c: char) -> bool {
    c == 'a' || c == 'A' || c == 'e' || c == 'E' || c == 'i' || c == 'I' || c == 'o' || c == 'O'
        || c == 'u' || c == 'U'
}

/// The predicate "is a vowel".
pub open spec fn vowel() -> spec_fn(char) -> bool {
    |c: char| is_vowel(c)
}

/// Whether `c` is a vowel.
fn vowel_at(c: char) -> (r: bool)
    ensures
        r == is_vowel(c),
{
    c == 'a' || c == 'A' || c == 'e' || c == 'E' || c == 'i' || c == 'I' || c == 'o' || c == 'O'
        || c == 'u' || c == 'U'
}

/// The vowels of a prefix that is longer by one.
proof fn lemma_vowels_front(s: Seq<char>, i: int)
    requires
        0 <= i < s.len(),
    ensures
        s.take(i + 1).filter(vowel()) == (if is_vowel(s[i]) {
            s.take(i).filter(vowel()).push(s[i])
        } else {
            s.take(i).filter(vowel())
        }),
{
    s.take(i).lemma_filter_push(s[i], vowel());
    assert(s.take(i).push(s[i]) =~= s.take(i + 1));
}

/// The vowels of a suffix that is longer by one.
proof fn lemma_vowels_back(s: Seq<char>, j: int)
    requires
        0 <= j < s.len(),
    ensures
        s.skip(j).filter(vowel()) == (if is_vowel(s[j]) {
            seq![s[j]] + s.skip(j + 1).filter(vowel())
        } else {
            s.skip(j + 1).filter(vowel())
        }),
{
    s.skip(j + 1).lemma_filter_prepend(s[j], vowel());
    assert(seq![s[j]] + s.skip(j + 1) =~= s.skip(j));
    assert(Seq::<char>::empty() + s.skip(j + 1).filter(vowel()) =~= s.skip(j + 1).filter(
        vowel(),
    ));
}

/// The reverse of two sequences in a row is the reverses the other way
/// round.
proof fn lemma_reverse_add(a: Seq<char>, b: Seq<char>)
    ensures
        (a + b).reverse() == b.reverse() + a.reverse(),
{
    assert((a + b).reverse() =~= b.reverse() + a.reverse());
}

impl Solution {
    /// Two places whose values add up to `target`: the first place that
    /// has an earlier partner, and then the last such partner. The empty
    /// vector where no two values add up to `target`.
    pub fn two_sum(nums: Vec<i32>, target: i32) -> (r: Vec<i32>)
        requires
            nums@.len() <= i32::MAX,
            forall|i: int| 0 <= i < nums@.len() ==> i32::MIN <= target - #[trigger] nums@[i] <= i32::MAX,
        ensures
            (forall|i: int, j: int| !is_pair(nums@, target, i, j)) ==> r@.len() == 0,
            (exists|i: int, j: int| is_pair(nums@, target, i, j)) ==> r@.len() == 2 && is_pair(
                nums@,
                target,
                r@[0] as int,
                r@[1] as int,
            ) && forall|i: int, j: int|
                is_pair(nums@, target, i, j) ==> r@[0] < i || (r@[0] == i && j <= r@[1]),
    {
        let mut num_map: HashMap<i32, i32> = HashMap::with_capacity(nums.len());
        let mut result_vec: Vec<i32> = Vec::with_capacity(2);
        let mut i: usize = 0;
        while i < nums.len()
            invariant
                i <= nums@.len() <= i32::MAX,
                result_vec@.len() == 0,
                forall|k: int|
                    0 <= k < nums@.len() ==> i32::MIN <= target - #[trigger] nums@[k] <= i32::MAX,
                forall|a: int, b: int| a < i ==> !is_pair(nums@, target, a, b),
                forall|k: i32|
                    num_map@.contains_key(k) ==> 0 <= #[trigger] num_map@[k] < i && nums@[num_map@[k] as int]
                        == k,
                forall|j: int|
                    0 <= j < i ==> num_map@.contains_key(#[trigger] nums@[j]) && j
                        <= num_map@[nums@[j]],
            decreases nums@.len() - i,
        {
            let need: i32 = target - nums[i];
            if num_map.contains_key(&need) {
                let found = num_map.get(&need);
                let j: i32 = *found.unwrap();
                result_vec.push(i as i32);
                result_vec.push(j);
                proof {
                    assert(is_pair(nums@, target, i as int, j as int));
                    assert forall|a: int, b: int| is_pair(nums@, target, a, b) implies i < a || (i
                        == a && b <= j) by {
                        if a == i {
                            assert(nums@[b] == need);
                        }
                    }
                }
                return result_vec;
            } else {
                proof {
                    assert forall|b: int| !is_pair(nums@, target, i as int, b) by {
                        if is_pair(nums@, target, i as int, b) {
                            assert(nums@[b] == need);
                        }
                    }
                }
                num_map.insert(nums[i], i as i32);
            }
            i += 1;
        }
        result_vec
    }

    /// The sum of two numbers that are given as lists of decimal digits,
    /// the lowest digit first, as such a list. The sum has as many digits
    /// as the longer of the two, and one more where it needs one.
    pub fn add_two_numbers(l1: Option<Box<ListNode>>, l2: Option<Box<ListNode>>) -> (r: Option<
        Box<ListNode>,
    >)
        requires
            all_digits(list_view(l1)),
            all_digits(list_view(l2)),
        ensures
            all_digits(list_view(r)),
            number(list_view(r)) == number(list_view(l1)) + number(list_view(l2)),
            list_view(r).len() == longer(list_view(l1).len(), list_view(l2).len()) + (if number(
                list_view(l1),
            ) + number(list_view(l2)) >= pow10(
                longer(list_view(l1).len(), list_view(l2).len()),
            ) {
                1nat
            } else {
                0nat
            }),
        decreases list_view(l1).len() + list_view(l2).len(),
    {
        let ghost a = list_view(l1);
        let ghost b = list_view(l2);
        proof {
            lemma_number_bound(a);
            lemma_number_bound(b);
        }
        match l1 {
            None => match l2 {
                None => None,
                Some(node) => {
                    let ghost rest = list_view(node.next);
                    proof {
                        assert(b.skip(1) =~= rest);
                        assert(all_digits(rest)) by {
                            assert forall|i: int| 0 <= i < rest.len() implies 0 <= #[trigger] rest[i]
                                <= 9 by {
                                assert(rest[i] == b[i + 1]);
                            }
                        }
                        lemma_number_bound(rest);
                    }
                    let val = node.val;
                    let next = Solution::add_two_numbers(node.next, None);
                    let out = Some(Box::new(ListNode { val, next }));
                    proof {
                        assert(list_view(out).skip(1) =~= list_view(next));
                    }
                    out
                },
            },
            Some(l1_node) => match l2 {
                None => {
                    let ghost rest = list_view(l1_node.next);
                    proof {
                        assert(a.skip(1) =~= rest);
                        assert(all_digits(rest)) by {
                            assert forall|i: int| 0 <= i < rest.len() implies 0 <= #[trigger] rest[i]
                                <= 9 by {
                                assert(rest[i] == a[i + 1]);
                            }
                        }
                        lemma_number_bound(rest);
                    }
                    let val = l1_node.val;
                    let next = Solution::add_two_numbers(l1_node.next, None);
                    let out = Some(Box::new(ListNode { val, next }));
                    proof {
                        assert(list_view(out).skip(1) =~= list_view(next));
                    }
                    out
                },
                Some(l2_node) => {
                    let ghost ra = list_view(l1_node.next);
                    let ghost rb = list_view(l2_node.next);
                    let ghost top = longer(ra.len(), rb.len());
                    proof {
                        assert(a.skip(1) =~= ra);
                        assert(b.skip(1) =~= rb);
                        assert(a[0] == l1_node.val && b[0] == l2_node.val);
                        assert(all_digits(ra)) by {
                            assert forall|i: int| 0 <= i < ra.len() implies 0 <= #[trigger] ra[i]
                                <= 9 by {
                                assert(ra[i] == a[i + 1]);
                            }
                        }
                        assert(all_digits(rb)) by {
                            assert forall|i: int| 0 <= i < rb.len() implies 0 <= #[trigger] rb[i]
                                <= 9 by {
                                assert(rb[i] == b[i + 1]);
                            }
                        }
                        lemma_number_bound(ra);
                        lemma_number_bound(rb);
                        lemma_pow10_grows(ra.len(), top);
                        lemma_pow10_grows(rb.len(), top);
                        lemma_pow10_grows(0, top);
                    }
                    let sum = l1_node.val + l2_node.val;
                    let next = if sum >= 10 {
                        let carry_node = Some(Box::new(ListNode::new(1)));
                        proof {
                            let one = list_view(carry_node);
                            assert(one =~= seq![1i32]) by {
                                reveal_with_fuel(list_view, 2);
                            }
                            assert(one.skip(1) =~= Seq::<i32>::empty());
                            assert(number(one) == 1) by {
                                reveal_with_fuel(number, 2);
                            }
                            lemma_pow10_grows(ra.len(), longer(1, ra.len()));
                            lemma_pow10_grows(1, longer(1, ra.len()));
                            assert(pow10(1) == 10) by {
                                reveal_with_fuel(pow10, 2);
                            }
                        }
                        let first = Solution::add_two_numbers(carry_node, l1_node.next);
                        proof {
                            let x = list_view(first);
                            lemma_number_bound(x);
                            lemma_pow10_grows(x.len(), longer(x.len(), rb.len()));
                            lemma_pow10_grows(rb.len(), longer(x.len(), rb.len()));
                            lemma_pow10_grows(top, longer(x.len(), rb.len()));
                        }
                        Solution::add_two_numbers(first, l2_node.next)
                    } else {
                        Solution::add_two_numbers(l1_node.next, l2_node.next)
                    };
                    let out = Some(Box::new(ListNode { val: sum % 10, next }));
                    proof {
                        assert(list_view(out).skip(1) =~= list_view(next));
                        assert(pow10(top + 1) == 10 * pow10(top));
                    }
                    out
                },
            },
        }
    }

    /// The characters of the two words by turns, beginning with `word1`;
    /// what the longer word has left comes at the end.
    pub fn merge_alternately(word1: String, word2: String) -> (r: String)
        ensures
            r@ == merge_rounds(
                word1@,
                word2@,
                if word1@.len() >= word2@.len() {
                    word1@.len()
                } else {
                    word2@.len()
                },
            ),
    {
        let first = word1.as_str();
        let second = word2.as_str();
        let n1 = first.unicode_len();
        let n2 = second.unicode_len();
        let mut result_str = String::new();
        let mut i: usize = 0;
        while i < n1 || i < n2
            invariant
                n1 == first@.len(),
                n2 == second@.len(),
                i <= n1 || i <= n2,
                result_str@ == merge_rounds(first@, second@, i as nat),
            decreases (if n1 >= n2 {
                n1
            } else {
                n2
            }) - i,
        {
            if i < n1 {
                result_str.push(first.get_char(i));
            }
            if i < n2 {
                result_str.push(second.get_char(i));
            }
            i += 1;
        }
        result_str
    }

    /// For each kid, whether the kid has the most candies of all, or as
    /// many as the one who has, once it gets the extra candies.
    pub fn kids_with_candies(candies: Vec<i32>, extra_candies: i32) -> (r: Vec<bool>)
        requires
            forall|i: int|
                0 <= i < candies@.len() ==> i32::MIN <= #[trigger] candies@[i] + extra_candies
                    <= i32::MAX,
        ensures
            r@.len() == candies@.len(),
            forall|i: int|
                0 <= i < candies@.len() ==> (#[trigger] r@[i] <==> forall|j: int|
                    0 <= j < candies@.len() ==> candies@[j] <= candies@[i] + extra_candies),
    {
        let mut result: Vec<bool> = Vec::new();
        if candies.len() == 0 {
            return result;
        }
        let mut max_candies: i32 = candies[0];
        let mut k: usize = 1;
        while k < candies.len()
            invariant
                1 <= k <= candies@.len(),
                forall|j: int| 0 <= j < k ==> candies@[j] <= max_candies,
                exists|j: int| 0 <= j < k && candies@[j] == max_candies,
            decreases candies@.len() - k,
        {
            if candies[k] > max_candies {
                max_candies = candies[k];
            }
            k += 1;
        }
        let mut i: usize = 0;
        while i < candies.len()
            invariant
                i <= candies@.len(),
                result@.len() == i,
                forall|j: int| 0 <= j < candies@.len() ==> candies@[j] <= max_candies,
                exists|j: int| 0 <= j < candies@.len() && candies@[j] == max_candies,
                forall|a: int|
                    0 <= a < candies@.len() ==> i32::MIN <= #[trigger] candies@[a] + extra_candies
                        <= i32::MAX,
                forall|a: int|
                    0 <= a < i ==> (#[trigger] result@[a] <==> candies@[a] + extra_candies
                        >= max_candies),
            decreases candies@.len() - i,
        {
            result.push(candies[i] + extra_candies >= max_candies);
            i += 1;
        }
        proof {
            let top = choose|j: int| 0 <= j < candies@.len() && candies@[j] == max_candies;
            assert forall|a: int| 0 <= a < candies@.len() implies (#[trigger] result@[a]
                <==> forall|j: int|
                0 <= j < candies@.len() ==> candies@[j] <= candies@[a] + extra_candies) by {
                if forall|j: int|
                    0 <= j < candies@.len() ==> candies@[j] <= candies@[a] + extra_candies {
                    assert(candies@[top] <= candies@[a] + extra_candies);
                }
            }
        }
        result
    }

    /// The text with its vowels in reverse order, every other character in
    /// its place.
    pub fn reverse_vowels(s: String) -> (r: String)
        requires
            s@.len() > 0,
        ensures
            r@.len() == s@.len(),
            forall|i: int| 0 <= i < s@.len() && !is_vowel(s@[i]) ==> r@[i] == s@[i],
            forall|i: int| 0 <= i < s@.len() ==> (is_vowel(r@[i]) <==> is_vowel(s@[i])),
            r@.filter(vowel()) == s@.filter(vowel()).reverse(),
    {
        let text = s.as_str();
        let n = text.unicode_len();
        let ghost orig = s@;
        let mut chars: Vec<char> = Vec::new();
        let mut k: usize = 0;
        while k < n
            invariant
                k <= n,
                n == text@.len(),
                chars@ == text@.take(k as int),
            decreases n - k,
        {
            chars.push(text.get_char(k));
            proof {
                assert(text@.take(k as int).push(text@[k as int]) =~= text@.take(k as int + 1));
            }
            k += 1;
        }
        proof {
            assert(text@.take(n as int) =~= text@);
        }
        let mut left: usize = 0;
        let mut right: usize = n - 1;
        proof {
            assert(chars@.take(0) =~= Seq::<char>::empty());
            assert(orig.skip(n as int) =~= Seq::<char>::empty());
            assert(Seq::<char>::empty().filter(vowel()) =~= Seq::<char>::empty()) by {
                reveal(Seq::filter);
            }
            assert(Seq::<char>::empty().reverse() =~= Seq::<char>::empty());
        }
        loop
            invariant
                chars@.len() == n == orig.len(),
                left <= right + 1,
                right < n,
                forall|i: int| left <= i <= right ==> chars@[i] == orig[i],
                forall|i: int| 0 <= i < n && !is_vowel(orig[i]) ==> chars@[i] == orig[i],
                forall|i: int| 0 <= i < n ==> (is_vowel(chars@[i]) <==> is_vowel(orig[i])),
                chars@.take(left as int).filter(vowel()) == orig.skip(right + 1).filter(
                    vowel(),
                ).reverse(),
                chars@.skip(right + 1).filter(vowel()) == orig.take(left as int).filter(
                    vowel(),
                ).reverse(),
            ensures
                left >= right,
            decreases right + 1 - left,
        {
            let ghost entry = (left, right);
            while left < right && !vowel_at(chars[left])
                invariant
                    chars@.len() == n == orig.len(),
                    entry.0 <= left <= right + 1,
                    right == entry.1,
                    right < n,
                    forall|i: int| left <= i <= right ==> chars@[i] == orig[i],
                    chars@.take(left as int).filter(vowel()) == orig.skip(right + 1).filter(
                        vowel(),
                    ).reverse(),
                    chars@.skip(right + 1).filter(vowel()) == orig.take(left as int).filter(
                        vowel(),
                    ).reverse(),
                decreases right + 1 - left,
            {
                proof {
                    lemma_vowels_front(chars@, left as int);
                    lemma_vowels_front(orig, left as int);
                }
                left += 1;
            }
            while left < right && !vowel_at(chars[right])
                invariant
                    chars@.len() == n == orig.len(),
                    entry.0 <= left <= right + 1,
                    right <= entry.1,
                    right < n,
                    forall|i: int| left <= i <= right ==> chars@[i] == orig[i],
                    chars@.take(left as int).filter(vowel()) == orig.skip(right + 1).filter(
                        vowel(),
                    ).reverse(),
                    chars@.skip(right + 1).filter(vowel()) == orig.take(left as int).filter(
                        vowel(),
                    ).reverse(),
                decreases right + 1 - left,
            {
                proof {
                    lemma_vowels_back(chars@, right as int);
                    lemma_vowels_back(orig, right as int);
                }
                right -= 1;
            }
            if left >= right {
                break ;
            }
            let ghost now = chars@;
            let front = chars[left];
            let back = chars[right];
            chars.set(left, back);
            chars.set(right, front);
            proof {
                let pre = orig.take(left as int).filter(vowel());
                let suf = orig.skip(right + 1).filter(vowel());
                lemma_vowels_front(chars@, left as int);
                lemma_vowels_front(orig, left as int);
                lemma_vowels_back(chars@, right as int);
                lemma_vowels_back(orig, right as int);
                assert(chars@.take(left as int) =~= now.take(left as int));
                assert(chars@.skip(right + 1) =~= now.skip(right + 1));
                lemma_reverse_add(seq![orig[right as int]], suf);
                assert(seq![orig[right as int]].reverse() =~= seq![orig[right as int]]);
                assert(suf.reverse() + seq![orig[right as int]] =~= suf.reverse().push(
                    orig[right as int],
                ));
                lemma_reverse_add(pre, seq![orig[left as int]]);
                assert(seq![orig[left as int]].reverse() =~= seq![orig[left as int]]);
                assert(pre.push(orig[left as int]) =~= pre + seq![orig[left as int]]);
            }
            left += 1;
            right -= 1;
        }
        proof {
            let cur = chars@;
            let mid = cur.subrange(left as int, right + 1);
            let pre = orig.take(left as int);
            let suf = orig.skip(right + 1);
            assert(mid =~= orig.subrange(left as int, right + 1));
            assert(cur =~= cur.take(left as int) + mid + cur.skip(right + 1));
            assert(orig =~= pre + mid + suf);
            Seq::filter_distributes_over_add(cur.take(left as int), mid, vowel());
            Seq::filter_distributes_over_add(
                cur.take(left as int) + mid,
                cur.skip(right + 1),
                vowel(),
            );
            Seq::filter_distributes_over_add(pre, mid, vowel());
            Seq::filter_distributes_over_add(pre + mid, suf, vowel());
            let held = mid.filter(vowel());
            mid.lemma_filter_len(vowel());
            assert(held.reverse() =~= held);
            lemma_reverse_add(pre.filter(vowel()) + held, suf.filter(vowel()));
            lemma_reverse_add(pre.filter(vowel()), held);
            assert(suf.filter(vowel()).reverse() + (held + pre.filter(vowel()).reverse())
                =~= suf.filter(vowel()).reverse() + held + pre.filter(vowel()).reverse());
        }
        let mut result = String::new();
        let mut k: usize = 0;
        while k < n
            invariant
                k <= n,
                n == chars@.len(),
                result@ == chars@.take(k as int),
            decreases n - k,
        {
            result.push(chars[k]);
            proof {
                assert(chars@.take(k as int).push(chars@[k as int]) =~= chars@.take(
                    k as int + 1,
                ));
            }
            k += 1;
        }
        proof {
            assert(chars@.take(n as int) =~= chars@);
        }
        result
    }

    /// Moves the zeroes to the end and keeps the other values in their
    /// order.
    pub fn move_zeroes(nums: &mut Vec<i32>)
        ensures
            final(nums)@.len() == old(nums)@.len(),
            final(nums)@.take(old(nums)@.filter(nonzero()).len() as int) == old(nums)@.filter(
                nonzero(),
            ),
            forall|i: int|
                old(nums)@.filter(nonzero()).len() <= i < old(nums)@.len() ==> final(nums)@[i]
                    == 0,
    {
        let ghost before = nums@;
        let mut placement_idx: usize = 0;
        let mut ptr: usize = 0;
        proof {
            assert(before.take(0) =~= Seq::<i32>::empty());
            assert(before.take(0).filter(nonzero()) =~= Seq::<i32>::empty()) by {
                reveal(Seq::filter);
            }
            assert(nums@.take(0) =~= Seq::<i32>::empty());
        }
        while ptr < nums.len()
            invariant
                placement_idx <= ptr <= nums@.len(),
                nums@.len() == before.len(),
                nums@.take(placement_idx as int) == before.take(ptr as int).filter(nonzero()),
                forall|i: int| placement_idx <= i < ptr ==> nums@[i] == 0,
                forall|i: int| ptr <= i < nums@.len() ==> nums@[i] == before[i],
            decreases nums@.len() - ptr,
        {
            let ghost now = nums@;
            proof {
                before.take(ptr as int).lemma_filter_push(before[ptr as int], nonzero());
                assert(before.take(ptr as int).push(before[ptr as int]) =~= before.take(
                    ptr as int + 1,
                ));
            }
            if nums[ptr] != 0 {
                let moved = nums[ptr];
                let held = nums[placement_idx];
                nums.set(ptr, held);
                nums.set(placement_idx, moved);
                proof {
                    assert(nums@.take(placement_idx as int + 1) =~= now.take(
                        placement_idx as int,
                    ).push(moved));
                }
                placement_idx += 1;
            } else {
                proof {
                    assert(nums@.take(placement_idx as int) =~= now.take(placement_idx as int));
                }
            }
            ptr += 1;
        }
        proof {
            assert(before.take(before.len() as int) =~= before);
        }
    }
}

} // verus!
