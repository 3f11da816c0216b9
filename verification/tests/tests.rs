use foldlist::fold_chain::FoldChain;
use foldlist::fold_list::{CountAbove, FoldList};
use foldlist::fold_settings::{
    AddUsizeSettings, ConcatSemigroup, ConcatSettings, FoldSettings, LenSumSettings,
    MaxI64Settings, SettingsWithSize,
};
use foldlist::fold_simplification::{
    FoldSimplification, I64Above, NoSimplification, StringLenSimplification, UsizeAbove,
};

fn strings(words: &[&str]) -> Vec<String> {
    words.iter().map(|w| w.to_string()).collect()
}

#[test]
fn test_main_example1() {
    let fold_list: FoldList<String, usize, LenSumSettings> = FoldList::new(LenSumSettings);
    assert_eq!(fold_list.len(), 0);
    assert_eq!(fold_list.fold(), 0);
}

#[test]
fn test_main_example2() {
    let mut fold_list = FoldList::from_iter(
        LenSumSettings,
        strings(&["a", "hi", "wxyz", "l", "syzygy"]),
    );

    assert_eq!(fold_list.len(), 5);
    assert_eq!(fold_list.fold(), 14);

    let list_view = &mut fold_list;
    assert_eq!(list_view.len(), 5);
    assert_eq!(list_view.fold(), 14);

    let expect = |got: Vec<String>, want: &[&str]| {
        let want: Vec<String> = strings(want);
        assert_eq!(got, want);
    };
    fn collect<'a>(
        sl: &foldlist::fold_list::MutFoldListSliceStruct<'a, String, usize, LenSumSettings, NoSimplification>,
    ) -> Vec<String> {
        let mut out = Vec::new();
        let mut i = 0;
        while let Some(s) = sl.get(i) {
            out.push(s.clone());
            i += 1;
        }
        out
    }
    fn collect_imm<'a>(
        sl: &foldlist::fold_list::FoldListSliceFrom<'a, String, usize, LenSumSettings, NoSimplification>,
    ) -> Vec<String> {
        let mut out = Vec::new();
        let mut i = 0;
        while let Some(s) = sl.get(i) {
            out.push(s.clone());
            i += 1;
        }
        out
    }

    expect(collect(&list_view.mut_view_take_left_until(UsizeAbove(5))), &["a", "hi"]);
    expect(collect_imm(&list_view.view_take_left_until(UsizeAbove(5))), &["a", "hi"]);

    expect(collect(&list_view.mut_view_take_left_until(UsizeAbove(6))), &["a", "hi"]);
    expect(collect(&list_view.mut_view_take_right_until(UsizeAbove(6))), &["syzygy"]);
    expect(
        collect(&list_view.mut_view_drop_left_until(UsizeAbove(6))),
        &["wxyz", "l", "syzygy"],
    );
    expect(
        collect(&list_view.mut_view_drop_right_until(UsizeAbove(6))),
        &["a", "hi", "wxyz", "l"],
    );

    expect(collect_imm(&list_view.view_take_left_until(UsizeAbove(6))), &["a", "hi"]);
    expect(collect_imm(&list_view.view_take_right_until(UsizeAbove(6))), &["syzygy"]);
    expect(
        collect_imm(&list_view.view_drop_left_until(UsizeAbove(6))),
        &["wxyz", "l", "syzygy"],
    );
    expect(
        collect_imm(&list_view.view_drop_right_until(UsizeAbove(6))),
        &["a", "hi", "wxyz", "l"],
    );

    // the same four slicings once more, checking that repeated view
    // creation from the same list keeps giving the same answers
    expect(collect(&list_view.mut_view_take_left_until(UsizeAbove(6))), &["a", "hi"]);
    expect(collect(&list_view.mut_view_take_right_until(UsizeAbove(6))), &["syzygy"]);
    expect(
        collect(&list_view.mut_view_drop_left_until(UsizeAbove(6))),
        &["wxyz", "l", "syzygy"],
    );
    expect(
        collect(&list_view.mut_view_drop_right_until(UsizeAbove(6))),
        &["a", "hi", "wxyz", "l"],
    );

    expect(collect_imm(&list_view.view_take_left_until(UsizeAbove(6))), &["a", "hi"]);
    expect(collect_imm(&list_view.view_take_right_until(UsizeAbove(6))), &["syzygy"]);
    expect(
        collect_imm(&list_view.view_drop_left_until(UsizeAbove(6))),
        &["wxyz", "l", "syzygy"],
    );
    expect(
        collect_imm(&list_view.view_drop_right_until(UsizeAbove(6))),
        &["a", "hi", "wxyz", "l"],
    );
}

#[test]
fn test_main_example3() {
    // this time op is string concatenation
    let mut fold_list = FoldList::from_iter(
        ConcatSettings,
        strings(&["a", "hi", "wxyz", "l", "syzygy"]),
    );

    assert_eq!(fold_list.fold(), String::from("ahiwxyzlsyzygy"));

    let mut rev_view = fold_list.mut_view_reversed();

    assert_eq!(rev_view.fold(), String::from("ahiwxyzlsyzygy"));

    let collect = |sl: &foldlist::fold_list::MutFoldListSliceStruct<
        '_,
        String,
        String,
        ConcatSettings,
        NoSimplification,
    >| {
        let mut out: Vec<String> = Vec::new();
        let mut i = 0;
        while let Some(s) = sl.get(i) {
            out.push(s.clone());
            i += 1;
        }
        out
    };

    assert_eq!(collect(&rev_view), strings(&["syzygy", "l", "wxyz", "hi", "a"]));

    let mut list2 = FoldList::from_settings(rev_view.get_settings());
    list2.append_right_from_iter(strings(&["one", "two", "three"]));

    rev_view = rev_view.append_all_left(list2);

    assert_eq!(
        collect(&rev_view),
        strings(&["three", "two", "one", "syzygy", "l", "wxyz", "hi", "a"])
    );
}

#[test]
fn test_main_example4() {
    // just the syntax: a fold over concatenated text, simplified to the sum
    // of the lengths through a simplification with direct shortcuts
    fn my_len_sum(view: foldlist::fold_list::FoldListSliceFrom<'_, String, String, ConcatSettings, NoSimplification>) -> usize {
        let view_with_simplification = view.view_simplify_with_shortcut(StringLenSimplification);
        view_with_simplification.fold()
    }
    let fold_list = FoldList::from_iter(ConcatSettings, strings(&["one", "two"]));
    assert_eq!(my_len_sum(fold_list.as_imm()), 6);
}

#[test]
fn test_main_example5() {
    // just the syntax: a FoldList type that can be named inside a struct
    pub struct MyStructThatUsesFoldList {
        foldlist: FoldList<String, usize, LenSumSettings>,
        is_cool: bool,
    }

    impl MyStructThatUsesFoldList {
        fn new() -> Self {
            Self { foldlist: FoldList::from_settings(LenSumSettings), is_cool: true }
        }
    }

    let made = MyStructThatUsesFoldList::new();
    assert!(made.is_cool);
    assert_eq!(made.foldlist.len(), 0);
}

#[test]
fn test_chain_basic_ops() {
    let mut chain = FoldChain::from_settings(LenSumSettings);
    assert!(chain.is_empty());
    assert_eq!(chain.fold(), 0);
    chain.append_right("hi".to_string());
    chain.append_left("a".to_string());
    chain.append_right("wxyz".to_string());
    assert_eq!(chain.fold(), 7);
    assert_eq!(chain.left().unwrap(), "a");
    assert_eq!(chain.right().unwrap(), "wxyz");
    assert_eq!(chain.pop_left().unwrap(), "a");
    assert_eq!(chain.pop_right().unwrap(), "wxyz");
    assert_eq!(chain.fold(), 2);
    assert_eq!(chain.pop_left().unwrap(), "hi");
    assert!(chain.pop_left().is_none());
    assert!(chain.pop_right().is_none());
}

#[test]
fn test_chain_set_and_update() {
    let mut chain = FoldChain::from_iter(LenSumSettings, strings(&["a", "hi", "wxyz"]));
    assert_eq!(chain.set_left("bb".to_string()), "a");
    assert_eq!(chain.set_right("c".to_string()), "wxyz");
    assert_eq!(chain.fold(), 5);
    assert_eq!(chain.set_left_or_err("x".to_string()).unwrap(), "bb");
    let updated = chain.update_left(|s: String| format!("{}{}", s, s));
    assert!(updated);
    assert_eq!(chain.fold(), 5);
    let mut empty_chain = FoldChain::from_settings(LenSumSettings);
    assert_eq!(empty_chain.set_left_or_err("y".to_string()).unwrap_err(), "y");
    assert!(!empty_chain.update_right(|s: String| s));
}

#[test]
fn test_chain_take_and_append_all() {
    let mut chain = FoldChain::from_iter(LenSumSettings, strings(&["a", "hi", "wxyz"]));
    let taken = chain.take_all();
    assert!(chain.is_empty());
    assert_eq!(taken.fold(), 7);
    chain.append_all_right(taken);
    assert_eq!(chain.fold(), 7);
    let other = FoldChain::from_iter(LenSumSettings, strings(&["syzygy"]));
    chain.append_all_left(other);
    assert_eq!(chain.left().unwrap(), "syzygy");
    assert_eq!(chain.fold(), 13);
}

#[test]
fn test_chain_views_and_search() {
    let chain = FoldChain::from_iter(
        LenSumSettings,
        strings(&["a", "hi", "wxyz", "l", "syzygy"]),
    );
    let taken = chain.view_take_left_until(UsizeAbove(6));
    assert_eq!(taken.fold(), 3);
    assert_eq!(taken.left().unwrap(), "a");
    assert_eq!(taken.right().unwrap(), "hi");
    let dropped = chain.view_drop_left_until(UsizeAbove(6));
    assert_eq!(dropped.fold(), 11);
    assert_eq!(dropped.left().unwrap(), "wxyz");
    let suffix = chain.view_take_right_until(UsizeAbove(6));
    assert_eq!(suffix.fold(), 6);
    assert_eq!(suffix.left().unwrap(), "syzygy");
    let head = chain.view_drop_right_until(UsizeAbove(6));
    assert_eq!(head.fold(), 8);
    assert_eq!(head.right().unwrap(), "l");
}

#[test]
fn test_reversed_twice_indistinguishable() {
    let chain = FoldChain::from_iter(LenSumSettings, strings(&["a", "hi", "wxyz"]));
    let once = chain.view_reversed();
    assert_eq!(once.left().unwrap(), "wxyz");
    assert_eq!(once.fold(), 7);
    let twice = once.view_reversed();
    assert_eq!(twice.left().unwrap(), "a");
    assert_eq!(twice.right().unwrap(), "wxyz");
    assert_eq!(twice.fold(), 7);
    assert!(!twice.is_empty());
}

#[test]
fn test_split_rejoin_identity() {
    // for every split point, taking the prefix out and appending it back
    // restores the elements and the fold
    for k in 0..=10usize {
        let mut list = FoldList::from_iter(AddUsizeSettings, (0..10usize).collect());
        let original_fold = list.fold();
        let prefix = {
            let prefix_view = list.mut_view_take_left(k);
            let (prefix, _rest_view) = prefix_view.take_all();
            prefix
        };
        list.append_all_left(prefix);
        assert_eq!(list.len(), 10);
        assert_eq!(list.fold(), original_fold);
        for i in 0..10usize {
            assert_eq!(*list.get_at(i), i);
        }
    }
}

#[test]
fn test_pop_append_restores() {
    let mut list = FoldList::from_iter(LenSumSettings, strings(&["a", "hi", "wxyz"]));
    let popped = list.pop_left().unwrap();
    assert_eq!(popped, "a");
    assert_eq!(list.len(), 2);
    list.append_left(popped);
    assert_eq!(list.len(), 3);
    assert_eq!(list.fold(), 7);
    assert_eq!(*list.get_at(0), "a");
    assert_eq!(*list.get_at(1), "hi");
    assert_eq!(*list.get_at(2), "wxyz");
}

#[test]
fn test_predicate_never_and_always() {
    let list = FoldList::from_iter(
        LenSumSettings,
        strings(&["a", "hi", "wxyz", "l", "syzygy"]),
    );
    // a threshold no usize exceeds: the predicate never holds
    let never = UsizeAbove(usize::MAX);
    let taken = list.view_take_left_until(never);
    assert_eq!(taken.len(), 5);
    let dropped = list.view_drop_left_until(never);
    assert_eq!(dropped.len(), 0);
    // every cumulative fold of a nonempty prefix here exceeds zero, and the
    // boundary the search finds sits at the near end
    let always = UsizeAbove(0);
    let taken0 = list.view_take_left_until(always);
    assert_eq!(taken0.len(), 0);
    let dropped0 = list.view_drop_left_until(always);
    assert_eq!(dropped0.len(), 5);
}

#[test]
fn test_insert_into_empty() {
    let mut list = FoldList::from_settings(LenSumSettings);
    list.append_right("hello".to_string());
    assert_eq!(list.len(), 1);
    assert_eq!(list.fold(), 5);
    let mut list2 = FoldList::from_settings(LenSumSettings);
    list2.insert_at(0, "bye".to_string());
    assert_eq!(list2.len(), 1);
    assert_eq!(list2.fold(), 3);
}

#[test]
fn test_remove_at_index() {
    // container of 100 integers, folded by addition
    let mut list = FoldList::from_iter(AddUsizeSettings, (0..100usize).collect());
    let fold_before = list.fold();
    assert_eq!(fold_before, 4950);
    let removed = list.remove_at(50);
    assert_eq!(removed, 50);
    assert_eq!(list.len(), 99);
    assert_eq!(list.fold(), fold_before - 50);
    assert_eq!(*list.get_at(50), 51);
}

#[test]
fn test_insert_set_update_at() {
    let mut list = FoldList::from_iter(AddUsizeSettings, vec![1usize, 2, 3]);
    list.insert_at(1, 10);
    assert_eq!(*list.get_at(1), 10);
    assert_eq!(list.fold(), 16);
    assert_eq!(list.set_at(0, 7), 1);
    assert_eq!(list.fold(), 22);
    list.update_at(3, |v: usize| v + 1);
    assert_eq!(*list.get_at(3), 4);
    assert_eq!(list.fold(), 23);
}

#[test]
fn test_simplified_fold_matches() {
    let list = FoldList::from_iter(
        ConcatSettings,
        strings(&["a", "hi", "wxyz", "l", "syzygy"]),
    );
    let plain = list.fold();
    let simplified = list.view_simplify(StringLenSimplification).fold();
    assert_eq!(simplified, plain.chars().count());
    assert_eq!(simplified, 14);
    let searched = list
        .view_simplify(StringLenSimplification)
        .view_take_left_until(UsizeAbove(6));
    assert_eq!(searched.len(), 2);
}

#[test]
fn test_max_fold_search() {
    // insert a permutation of 1..=10 and slice by a running maximum
    let values: Vec<i64> = vec![3, 1, 4, 2, 7, 5, 10, 6, 9, 8];
    let list = FoldList::from_iter(MaxI64Settings, values.clone());
    for t in 0..11i64 {
        let taken = list.view_take_left_until(I64Above(t));
        // the longest prefix all of whose elements are at most t
        let mut expected = 0;
        for &v in values.iter() {
            if v > t {
                break;
            }
            expected += 1;
        }
        assert_eq!(taken.len(), expected);
        for i in 0..taken.len() {
            assert!(*taken.get(i).unwrap() <= t);
        }
    }
}

#[test]
fn test_reversed_view_until_slicing() {
    let mut list = FoldList::from_iter(
        LenSumSettings,
        strings(&["a", "hi", "wxyz", "l", "syzygy"]),
    );
    let rev = list.mut_view_reversed();
    // on the reversed view, the left end is the base's right end
    let taken = rev.mut_view_take_left_until(UsizeAbove(6));
    assert_eq!(taken.fold(), 6);
    assert_eq!(*taken.get(0).unwrap(), "syzygy");
    assert_eq!(taken.len(), 1);
}

#[test]
fn test_sized_chain_round_trip() {
    let list = FoldList::from_iter(LenSumSettings, strings(&["a", "hi"]));
    let chain: &FoldChain<String, (usize, usize), SettingsWithSize<LenSumSettings>> =
        list.as_sized_chain();
    let (count, total) = chain.fold();
    assert_eq!(count, 2);
    assert_eq!(total, 3);
    let rebuilt = FoldChain::from_iter(
        SettingsWithSize(LenSumSettings),
        strings(&["a", "hi"]),
    )
    .as_fold_list();
    assert_eq!(rebuilt.len(), 2);
    assert_eq!(rebuilt.fold(), 3);
}

#[test]
fn test_oracle_random_ops() {
    // a scripted mix of operations checked against a plain vector oracle
    let settings = AddUsizeSettings;
    let mut list = FoldList::from_settings(settings);
    let mut oracle: Vec<usize> = Vec::new();
    let mut seed: u64 = 0x2545F4914F6CDD1D;
    let mut next = || {
        seed ^= seed << 13;
        seed ^= seed >> 7;
        seed ^= seed << 17;
        seed
    };
    for step in 0..400 {
        match next() % 8 {
            0 => {
                let v = (next() % 1000) as usize;
                list.append_left(v);
                oracle.insert(0, v);
            }
            1 => {
                let v = (next() % 1000) as usize;
                list.append_right(v);
                oracle.push(v);
            }
            2 => {
                let got = list.pop_left();
                let want = if oracle.is_empty() { None } else { Some(oracle.remove(0)) };
                assert_eq!(got, want);
            }
            3 => {
                let got = list.pop_right();
                let want = oracle.pop();
                assert_eq!(got, want);
            }
            4 => {
                if !oracle.is_empty() {
                    let i = (next() as usize) % oracle.len();
                    let v = (next() % 1000) as usize;
                    let got = list.set_at(i, v);
                    let want = std::mem::replace(&mut oracle[i], v);
                    assert_eq!(got, want);
                }
            }
            5 => {
                if !oracle.is_empty() {
                    let i = (next() as usize) % oracle.len();
                    assert_eq!(list.remove_at(i), oracle.remove(i));
                }
            }
            6 => {
                let i = (next() as usize) % (oracle.len() + 1);
                let v = (next() % 1000) as usize;
                list.insert_at(i, v);
                oracle.insert(i, v);
            }
            _ => {
                let t = (next() % 2000) as usize;
                let taken = list.view_take_left_until(UsizeAbove(t));
                let mut acc = 0usize;
                let mut expected = 0usize;
                for &v in oracle.iter() {
                    if acc + v > t {
                        break;
                    }
                    acc += v;
                    expected += 1;
                }
                assert_eq!(taken.len(), expected);
            }
        }
        // full audit every few steps
        if step % 20 == 0 {
            assert_eq!(list.len(), oracle.len());
            assert_eq!(list.fold(), oracle.iter().sum::<usize>());
            for (i, v) in oracle.iter().enumerate() {
                assert_eq!(list.get_at(i), v);
            }
        }
    }
    assert_eq!(list.len(), oracle.len());
    for (i, v) in oracle.iter().enumerate() {
        assert_eq!(list.get_at(i), v);
    }
}

#[test]
fn test_new_with_opt() {
    let mut chain = FoldChain::new_with_opt(ConcatSemigroup);
    assert_eq!(chain.fold(), None);
    chain.append_right("ab".to_string());
    chain.append_right("cd".to_string());
    assert_eq!(chain.fold(), Some("abcd".to_string()));
    let list = FoldList::new_with_opt_from_iter(ConcatSemigroup, strings(&["x", "yz"]));
    assert_eq!(list.fold(), Some("xyz".to_string()));
    assert_eq!(list.len(), 2);
}

#[test]
fn test_list_update_ends() {
    let mut list = FoldList::from_iter(LenSumSettings, strings(&["a", "hi", "wxyz"]));
    assert!(list.update_left(|s: String| format!("{}!", s)));
    assert!(list.update_right(|s: String| format!("[{}]", s)));
    assert_eq!(*list.get_at(0), "a!");
    assert_eq!(*list.get_at(2), "[wxyz]");
    assert_eq!(list.fold(), 10);
    let mut empty_list: FoldList<String, usize, LenSumSettings> =
        FoldList::from_settings(LenSumSettings);
    assert!(!empty_list.update_left(|s: String| s));
}

#[test]
fn test_mut_chain_view_edits() {
    let mut chain = FoldChain::from_iter(LenSumSettings, strings(&["a", "hi", "wxyz", "l"]));
    {
        let view = chain.mut_view_drop_left_until(UsizeAbove(2));
        // the view holds ["hi", "wxyz", "l"]; pop its left element
        let (popped, view) = view.pop_left();
        assert_eq!(popped.unwrap(), "hi");
        let view = view.append_right("syzygy".to_string());
        assert_eq!(view.fold(), 11);
        let (taken, view) = view.take_all();
        assert_eq!(taken.fold(), 11);
        assert!(view.is_empty());
    }
    assert_eq!(chain.fold(), 1);
    assert_eq!(chain.left().unwrap(), "a");
    assert_eq!(chain.right().unwrap(), "a");
}

#[test]
fn test_mut_chain_view_set_ends() {
    let mut chain = FoldChain::from_iter(LenSumSettings, strings(&["a", "hi", "wxyz"]));
    let view = chain.as_mut();
    let (old_left, view) = view.set_left_or_err("bb".to_string());
    assert_eq!(old_left.unwrap(), "a");
    let (old_right, view) = view.set_right_or_err("c".to_string());
    assert_eq!(old_right.unwrap(), "wxyz");
    assert_eq!(view.fold(), 5);
    drop(view);
    assert_eq!(chain.fold(), 5);
}

#[test]
fn test_view_counts_on_list() {
    let list = FoldList::from_iter(AddUsizeSettings, (1..=6usize).collect());
    let front = list.view_take_left(2);
    assert_eq!(front.len(), 2);
    assert_eq!(front.fold(), 3);
    let back = list.view_take_right(2);
    assert_eq!(back.len(), 2);
    assert_eq!(back.fold(), 11);
    let mid = list.view_drop_left(2).view_drop_right(2);
    assert_eq!(mid.len(), 2);
    assert_eq!(mid.fold(), 7);
    let all = list.view_take_left(99);
    assert_eq!(all.len(), 6);
}

#[test]
fn test_reversed_count_slicing() {
    let list = FoldList::from_iter(AddUsizeSettings, (1..=5usize).collect());
    let rev = list.view_reversed();
    let first_two = rev.borrow().view_take_left(2);
    assert_eq!(*first_two.get(0).unwrap(), 5);
    assert_eq!(*first_two.get(1).unwrap(), 4);
    // reversing flips traversal but not the fold
    assert_eq!(first_two.fold(), 9);
    let back = rev.view_take_right(2);
    assert_eq!(*back.get(0).unwrap(), 2);
    assert_eq!(*back.get(1).unwrap(), 1);
}

#[test]
fn test_with_size_slicing() {
    let list = FoldList::from_iter(
        LenSumSettings,
        strings(&["a", "hi", "wxyz", "l", "syzygy"]),
    );
    let taken = list.view_take_left_until_with_size(CountAbove(3));
    assert_eq!(taken.len(), 3);
    assert_eq!(taken.fold(), 7);
    let dropped = list.view_drop_left_until_with_size(CountAbove(3));
    assert_eq!(dropped.len(), 2);
    let back = list.view_take_right_until_with_size(CountAbove(1));
    assert_eq!(back.len(), 1);
    assert_eq!(*back.get(0).unwrap(), "syzygy");
    let mut list2 = list;
    let front = list2.mut_view_drop_right_until_with_size(CountAbove(2));
    assert_eq!(front.len(), 3);
    assert_eq!(front.fold(), 7);
}
