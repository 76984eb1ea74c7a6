use rs_sol::lc::ListNode;
use rs_sol::lc::TreeNode;
use rs_sol::Solution;

#[test]
fn two_sum_gives_the_later_place_first() {
    assert_eq!(Solution::two_sum(vec![2, 7, 11, 15], 9), vec![1, 0]);
    assert_eq!(Solution::two_sum(vec![3, 2, 4], 6), vec![2, 1]);
    assert_eq!(Solution::two_sum(vec![3, 3], 6), vec![1, 0]);
}

#[test]
fn two_sum_takes_the_last_earlier_partner() {
    assert_eq!(Solution::two_sum(vec![3, 3, 4], 7), vec![2, 1]);
    assert_eq!(Solution::two_sum(vec![1, 5, 5, 1, 9], 10), vec![2, 1]);
}

#[test]
fn two_sum_without_a_pair_is_empty() {
    assert_eq!(Solution::two_sum(vec![1, 2, 3], 7), Vec::<i32>::new());
    assert_eq!(Solution::two_sum(vec![], 0), Vec::<i32>::new());
    assert_eq!(Solution::two_sum(vec![5], 10), Vec::<i32>::new());
}

#[test]
fn merge_alternately_takes_turns() {
    assert_eq!(
        Solution::merge_alternately("abc".to_string(), "pqr".to_string()),
        "apbqcr"
    );
    assert_eq!(
        Solution::merge_alternately("ab".to_string(), "pqrs".to_string()),
        "apbqrs"
    );
    assert_eq!(
        Solution::merge_alternately("abcd".to_string(), "pq".to_string()),
        "apbqcd"
    );
}

#[test]
fn merge_alternately_with_an_empty_word() {
    assert_eq!(
        Solution::merge_alternately(String::new(), "xyz".to_string()),
        "xyz"
    );
    assert_eq!(
        Solution::merge_alternately("xyz".to_string(), String::new()),
        "xyz"
    );
    assert_eq!(
        Solution::merge_alternately(String::new(), String::new()),
        ""
    );
}

#[test]
fn kids_with_candies_compares_with_the_most() {
    assert_eq!(
        Solution::kids_with_candies(vec![2, 3, 5, 1, 3], 3),
        vec![true, true, true, false, true]
    );
    assert_eq!(
        Solution::kids_with_candies(vec![4, 2, 1, 1, 2], 1),
        vec![true, false, false, false, false]
    );
    assert_eq!(
        Solution::kids_with_candies(vec![12, 1, 12], 10),
        vec![true, false, true]
    );
}

#[test]
fn kids_with_candies_of_nobody() {
    assert_eq!(Solution::kids_with_candies(vec![], 3), Vec::<bool>::new());
}

#[test]
fn move_zeroes_keeps_the_order_of_the_rest() {
    let mut nums = vec![0, 1, 0, 3, 12];
    Solution::move_zeroes(&mut nums);
    assert_eq!(nums, vec![1, 3, 12, 0, 0]);

    let mut nums = vec![0];
    Solution::move_zeroes(&mut nums);
    assert_eq!(nums, vec![0]);

    let mut nums = vec![4, 5, 6];
    Solution::move_zeroes(&mut nums);
    assert_eq!(nums, vec![4, 5, 6]);

    let mut nums: Vec<i32> = vec![];
    Solution::move_zeroes(&mut nums);
    assert_eq!(nums, Vec::<i32>::new());

    let mut nums = vec![0, 0, -1, 0, 2];
    Solution::move_zeroes(&mut nums);
    assert_eq!(nums, vec![-1, 2, 0, 0, 0]);
}

#[test]
fn new_nodes_stand_alone() {
    let tree = TreeNode::new(5);
    assert_eq!(tree.val, 5);
    assert!(tree.left.is_none());
    assert!(tree.right.is_none());
    let list = ListNode::new(7);
    assert_eq!(list.val, 7);
    assert!(list.next.is_none());
}

fn list_of(digits: &[i32]) -> Option<Box<ListNode>> {
    let mut list = None;
    for &digit in digits.iter().rev() {
        list = Some(Box::new(ListNode {
            val: digit,
            next: list,
        }));
    }
    list
}

fn digits_of(mut list: &Option<Box<ListNode>>) -> Vec<i32> {
    let mut digits = Vec::new();
    while let Some(node) = list {
        digits.push(node.val);
        list = &node.next;
    }
    digits
}

#[test]
fn add_two_numbers_adds_digit_by_digit() {
    let sum = Solution::add_two_numbers(list_of(&[2, 4, 3]), list_of(&[5, 6, 4]));
    assert_eq!(digits_of(&sum), vec![7, 0, 8]);
    let sum = Solution::add_two_numbers(list_of(&[0]), list_of(&[0]));
    assert_eq!(digits_of(&sum), vec![0]);
    let sum = Solution::add_two_numbers(list_of(&[1, 2]), list_of(&[3, 4, 5]));
    assert_eq!(digits_of(&sum), vec![4, 6, 5]);
}

#[test]
fn add_two_numbers_carries_to_a_new_digit() {
    let sum = Solution::add_two_numbers(
        list_of(&[9, 9, 9, 9, 9, 9, 9]),
        list_of(&[9, 9, 9, 9]),
    );
    assert_eq!(digits_of(&sum), vec![8, 9, 9, 9, 0, 0, 0, 1]);
    let sum = Solution::add_two_numbers(list_of(&[5]), list_of(&[5]));
    assert_eq!(digits_of(&sum), vec![0, 1]);
    let sum = Solution::add_two_numbers(list_of(&[9, 9]), list_of(&[1]));
    assert_eq!(digits_of(&sum), vec![0, 0, 1]);
}

#[test]
fn add_two_numbers_with_an_empty_list() {
    assert!(Solution::add_two_numbers(None, None).is_none());
    let sum = Solution::add_two_numbers(list_of(&[5, 0]), None);
    assert_eq!(digits_of(&sum), vec![5, 0]);
    let sum = Solution::add_two_numbers(None, list_of(&[7, 1]));
    assert_eq!(digits_of(&sum), vec![7, 1]);
    assert_eq!(sum, list_of(&[7, 1]));
}

#[test]
fn reverse_vowels_turns_the_vowels_round() {
    assert_eq!(Solution::reverse_vowels("hello".to_string()), "holle");
    assert_eq!(Solution::reverse_vowels("leetcode".to_string()), "leotcede");
    assert_eq!(Solution::reverse_vowels("aA".to_string()), "Aa");
    assert_eq!(Solution::reverse_vowels("IceCreAm".to_string()), "AceCreIm");
}

#[test]
fn reverse_vowels_leaves_the_rest_in_place() {
    assert_eq!(Solution::reverse_vowels("xyz".to_string()), "xyz");
    assert_eq!(Solution::reverse_vowels("a".to_string()), "a");
    assert_eq!(Solution::reverse_vowels("b".to_string()), "b");
    assert_eq!(Solution::reverse_vowels("a\u{f1}e".to_string()), "e\u{f1}a");
    assert_eq!(Solution::reverse_vowels(".,".to_string()), ".,");
}
