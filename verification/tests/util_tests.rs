use dstructs::list::to_sum;
use dstructs::stack::check_bracket;
use dstructs::stack::LinkStack;
use dstructs::stack::Stack;
use dstructs::utils::rotate_square_matrix_cw_90;

#[test]
fn test_to_sum() {
    let nums1 = vec![2, 7, 11, 15];
    let target1 = 9;
    let result1 = to_sum(&nums1, target1);
    assert_eq!(result1, (0, 1));

    let nums2 = vec![3, 2, 4];
    let target2 = 6;
    let result2 = to_sum(&nums2, target2);
    assert_eq!(result2, (1, 2));

    let nums3 = vec![1, 5, 3, 7];
    let target3 = 8;
    let result3 = to_sum(&nums3, target3);
    assert!(
        (result3 == (0, 3)) || (result3 == (3, 0)) || (result3 == (1, 2)) || (result3 == (2, 1))
    );
}

#[test]
fn test_rotate_square_matrix_cw_90() {
    let mut matrix = vec![vec![1, 2, 3], vec![4, 5, 6], vec![7, 8, 9]];

    let expected = vec![vec![7, 4, 1], vec![8, 5, 2], vec![9, 6, 3]];

    rotate_square_matrix_cw_90(&mut matrix);

    assert_eq!(matrix, expected);

    let mut matrix2 = vec![vec![1, 2], vec![3, 4]];

    let expected2 = vec![vec![3, 1], vec![4, 2]];

    rotate_square_matrix_cw_90(&mut matrix2);

    assert_eq!(matrix2, expected2);

    let mut matrix3 = vec![vec![5]];
    let expected3 = vec![vec![5]];

    rotate_square_matrix_cw_90(&mut matrix3);

    assert_eq!(matrix3, expected3);

    let mut matrix4 = vec![
        vec![1, 2, 3, 4],
        vec![5, 6, 7, 8],
        vec![9, 10, 11, 12],
        vec![13, 14, 15, 16],
    ];

    let expected4 = vec![
        vec![13, 9, 5, 1],
        vec![14, 10, 6, 2],
        vec![15, 11, 7, 3],
        vec![16, 12, 8, 4],
    ];

    rotate_square_matrix_cw_90(&mut matrix4);

    assert_eq!(matrix4, expected4);
}

#[test]
fn test_rotate_empty_matrix() {
    let mut matrix: Vec<Vec<i32>> = Vec::new();

    rotate_square_matrix_cw_90(&mut matrix);

    assert!(matrix.is_empty());
}

#[test]
fn test_check_bracket_balanced() {
    assert!(check_bracket("{}{[()]}"));
    assert!(check_bracket("()"));
    assert!(check_bracket(""));
    assert!(check_bracket("([{}])"));
}

#[test]
fn test_check_bracket_unbalanced() {
    assert!(!check_bracket("("));
    assert!(!check_bracket(")("));
    assert!(!check_bracket("([)]"));
    assert!(!check_bracket("{]"));
    assert!(!check_bracket("((())"));
}

#[test]
fn test_check_bracket_ignores_other_characters() {
    assert!(check_bracket("fn main() { let x = a[0]; }"));
    assert!(!check_bracket("if (x { return; }"));
}

#[test]
fn test_stack_new_is_empty() {
    let stack: Stack<i32> = Stack::new();
    assert!(stack.data.is_empty());
}

#[test]
fn test_link_stack_new() {
    let node = LinkStack::new(7);
    assert_eq!(node.data, 7);
    assert!(node.next.is_none());
}

#[test]
fn test_to_sum_adjacent_pair() {
    let nums = vec![0, 4, 3, 0];
    let result = to_sum(&nums, 0);
    assert_eq!(result, (0, 3));
}
