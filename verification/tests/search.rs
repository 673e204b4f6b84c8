use konvert::{
    build_conversions, find_conversion_path, find_conversion_steps, Calculation, Conversion,
};

type Formula = fn(f64) -> f64;
type Edge = Conversion<f64, Formula>;

fn reciprocal(rate: f64) -> f64 {
    1.0 / rate
}

fn edge(source: &str, rate: f64, target: &str) -> Edge {
    Conversion::new(source, Calculation::Rate(rate), target)
}

fn mass_table() -> Vec<Edge> {
    let entries: Vec<(&str, Calculation<f64, Formula>, &str)> = vec![
        ("kg", Calculation::Rate(2.20462262), "lbs"),
        ("kg", Calculation::Rate(1000.0), "g"),
        ("g", Calculation::Rate(1000.0), "mg"),
    ];
    build_conversions(&entries, reciprocal)
}

fn units_of(path: &Vec<&Edge>) -> Vec<(String, String)> {
    path.iter().map(|c| (c.source_unit.clone(), c.target_unit.clone())).collect()
}

fn pair(source: &str, target: &str) -> (String, String) {
    (String::from(source), String::from(target))
}

fn rate_of(conversion: &Edge) -> f64 {
    match conversion.calculation {
        Calculation::Rate(rate) => rate,
        Calculation::Func { .. } => panic!("expected a rate"),
    }
}

fn assert_valid(path: &Vec<&Edge>, source: &str, target: &str) {
    assert!(!path.is_empty());
    assert_eq!(path[0].source_unit, source);
    assert_eq!(path[path.len() - 1].target_unit, target);
    for i in 1..path.len() {
        assert_eq!(path[i - 1].target_unit, path[i].source_unit);
    }
    for i in 0..path.len() {
        for j in (i + 1)..path.len() {
            assert!(path[i] != path[j]);
        }
    }
}

#[test]
fn kg_to_mg_goes_through_g() {
    let table = mass_table();
    let path = find_conversion_path("kg", "mg", &table).expect("kg and mg are linked");
    assert_eq!(units_of(&path), vec![pair("kg", "g"), pair("g", "mg")]);
    assert_eq!(rate_of(path[0]), 1000.0);
    assert_eq!(rate_of(path[1]), 1000.0);
    assert_eq!(find_conversion_steps("kg", "mg", &table), Some(vec![2, 4]));
}

#[test]
fn mg_to_lbs_uses_the_inverses() {
    let table = mass_table();
    let path = find_conversion_path("mg", "lbs", &table).expect("mg and lbs are linked");
    assert_eq!(units_of(&path), vec![pair("mg", "g"), pair("g", "kg"), pair("kg", "lbs")]);
    assert_eq!(find_conversion_steps("mg", "lbs", &table), Some(vec![5, 3, 0]));
}

#[test]
fn direct_conversion_is_a_path_of_one() {
    let table = mass_table();
    let path = find_conversion_path("kg", "lbs", &table).expect("kg and lbs are linked");
    assert_eq!(path.len(), 1);
    assert_eq!(rate_of(path[0]), 2.20462262);
    assert_eq!(find_conversion_steps("lbs", "kg", &table), Some(vec![1]));
}

#[test]
fn shorter_of_two_disjoint_paths_is_chosen() {
    let table = vec![
        edge("a", 1.0, "x"),
        edge("x", 2.0, "y"),
        edge("y", 3.0, "b"),
        edge("a", 4.0, "z"),
        edge("z", 5.0, "b"),
    ];
    let path = find_conversion_path("a", "b", &table).expect("a and b are linked");
    assert_eq!(units_of(&path), vec![pair("a", "z"), pair("z", "b")]);
    assert_eq!(find_conversion_steps("a", "b", &table), Some(vec![3, 4]));
}

#[test]
fn shorter_path_is_chosen_when_it_comes_first() {
    let table = vec![
        edge("a", 4.0, "z"),
        edge("z", 5.0, "b"),
        edge("a", 1.0, "x"),
        edge("x", 2.0, "y"),
        edge("y", 3.0, "b"),
    ];
    assert_eq!(find_conversion_steps("a", "b", &table), Some(vec![0, 1]));
}

#[test]
fn direct_conversion_beats_a_detour_found_earlier() {
    let table = vec![edge("a", 1.0, "x"), edge("x", 2.0, "b"), edge("a", 3.0, "b")];
    let path = find_conversion_path("a", "b", &table).expect("a and b are linked");
    assert_eq!(path.len(), 1);
    assert_eq!(rate_of(path[0]), 3.0);
    assert_eq!(find_conversion_steps("a", "b", &table), Some(vec![2]));
}

#[test]
fn among_equal_lengths_the_earlier_in_the_table_wins() {
    let table =
        vec![edge("a", 1.0, "x"), edge("a", 2.0, "y"), edge("y", 3.0, "b"), edge("x", 4.0, "b")];
    assert_eq!(find_conversion_steps("a", "b", &table), Some(vec![0, 3]));
    let swapped =
        vec![edge("a", 2.0, "y"), edge("a", 1.0, "x"), edge("y", 3.0, "b"), edge("x", 4.0, "b")];
    assert_eq!(find_conversion_steps("a", "b", &swapped), Some(vec![0, 2]));
}

#[test]
fn paths_that_part_later_are_ordered_by_the_later_step() {
    let table = vec![
        edge("a", 1.0, "m"),
        edge("m", 2.0, "y"),
        edge("m", 3.0, "x"),
        edge("x", 4.0, "b"),
        edge("y", 5.0, "b"),
    ];
    assert_eq!(find_conversion_steps("a", "b", &table), Some(vec![0, 1, 4]));
}

#[test]
fn first_of_two_parallel_conversions_is_taken() {
    let table = vec![edge("a", 2.0, "b"), edge("a", 3.0, "b")];
    let path = find_conversion_path("a", "b", &table).expect("a and b are linked");
    assert_eq!(path.len(), 1);
    assert_eq!(rate_of(path[0]), 2.0);
}

#[test]
fn disconnected_units_have_no_path() {
    let table = build_conversions(
        &vec![
            ("kg", Calculation::<f64, Formula>::Rate(1000.0), "g"),
            ("km", Calculation::<f64, Formula>::Rate(1000.0), "m"),
        ],
        reciprocal,
    );
    assert!(find_conversion_path("kg", "m", &table).is_none());
    assert!(find_conversion_path("m", "g", &table).is_none());
    assert_eq!(find_conversion_steps("kg", "km", &table), None);
}

#[test]
fn unknown_units_have_no_path() {
    let table = mass_table();
    assert!(find_conversion_path("kg", "stone", &table).is_none());
    assert!(find_conversion_path("stone", "kg", &table).is_none());
    assert!(find_conversion_path("stone", "carat", &table).is_none());
    assert!(find_conversion_path("KG", "g", &table).is_none());
}

#[test]
fn empty_table_has_no_path() {
    let table: Vec<Edge> = Vec::new();
    assert!(find_conversion_path("kg", "g", &table).is_none());
    assert!(find_conversion_path("kg", "kg", &table).is_none());
    assert_eq!(find_conversion_steps("", "", &table), None);
}

#[test]
fn conversions_are_directed() {
    let table = vec![edge("a", 2.0, "b"), edge("b", 3.0, "c")];
    assert_eq!(find_conversion_steps("a", "c", &table), Some(vec![0, 1]));
    assert_eq!(find_conversion_steps("c", "a", &table), None);
    assert_eq!(find_conversion_steps("b", "a", &table), None);
}

#[test]
fn unit_without_a_way_back_has_no_path_to_itself() {
    let table = vec![edge("a", 2.0, "b"), edge("b", 3.0, "c")];
    assert_eq!(find_conversion_steps("a", "a", &table), None);
    assert_eq!(find_conversion_steps("c", "c", &table), None);
}

#[test]
fn unit_reaches_itself_only_through_other_units() {
    let table = mass_table();
    let path = find_conversion_path("kg", "kg", &table).expect("kg leads back to kg");
    assert_eq!(units_of(&path), vec![pair("kg", "lbs"), pair("lbs", "kg")]);
    assert_eq!(find_conversion_steps("g", "g", &table), Some(vec![3, 2]));
}

#[test]
fn conversion_from_a_unit_to_itself_is_a_path_of_one() {
    let table = vec![edge("a", 2.0, "b"), edge("b", 0.5, "a"), edge("a", 1.0, "a")];
    assert_eq!(find_conversion_steps("a", "a", &table), Some(vec![2]));
}

#[test]
fn search_ends_on_a_table_with_cycles() {
    let table = vec![
        edge("a", 1.0, "b"),
        edge("b", 1.0, "a"),
        edge("b", 1.0, "c"),
        edge("c", 1.0, "b"),
        edge("c", 1.0, "a"),
        edge("a", 1.0, "c"),
        edge("c", 1.0, "d"),
    ];
    assert_eq!(find_conversion_steps("a", "d", &table), Some(vec![5, 6]));
    assert_eq!(find_conversion_steps("d", "a", &table), None);
}

#[test]
fn found_paths_are_chained_and_take_no_link_twice() {
    let entries: Vec<(&str, Calculation<f64, Formula>, &str)> = vec![
        ("kg", Calculation::Rate(2.20462262), "lbs"),
        ("kg", Calculation::Rate(1000.0), "g"),
        ("km", Calculation::Rate(0.62137119), "mi"),
        ("km", Calculation::Rate(1000.0), "m"),
        ("m", Calculation::Rate(3.2808399), "ft"),
        ("ft", Calculation::Rate(12.0), "in"),
        ("yd", Calculation::Rate(3.0), "ft"),
        ("g", Calculation::Rate(1000.0), "mg"),
    ];
    let table = build_conversions(&entries, reciprocal);
    let units = ["kg", "lbs", "g", "mg", "km", "mi", "m", "ft", "in", "yd"];
    let mut found = 0;
    for source in units {
        for target in units {
            if let Some(path) = find_conversion_path(source, target, &table) {
                assert_valid(&path, source, target);
                found += 1;
            }
        }
    }
    assert_eq!(found, 4 * 4 + 6 * 6);
}

#[test]
fn mi_to_in_takes_four_conversions() {
    let entries: Vec<(&str, Calculation<f64, Formula>, &str)> = vec![
        ("km", Calculation::Rate(0.62137119), "mi"),
        ("km", Calculation::Rate(1000.0), "m"),
        ("m", Calculation::Rate(3.2808399), "ft"),
        ("ft", Calculation::Rate(12.0), "in"),
        ("yd", Calculation::Rate(3.0), "ft"),
    ];
    let table = build_conversions(&entries, reciprocal);
    let path = find_conversion_path("mi", "in", &table).expect("mi and in are linked");
    assert_eq!(
        units_of(&path),
        vec![pair("mi", "km"), pair("km", "m"), pair("m", "ft"), pair("ft", "in")]
    );
}

#[test]
fn path_holds_the_conversions_of_the_table() {
    let table = mass_table();
    let steps = find_conversion_steps("lbs", "g", &table).expect("lbs and g are linked");
    let path = find_conversion_path("lbs", "g", &table).expect("lbs and g are linked");
    assert_eq!(steps, vec![1, 2]);
    assert_eq!(path.len(), steps.len());
    for i in 0..steps.len() {
        assert!(std::ptr::eq(path[i], &table[steps[i]]));
    }
}

#[test]
fn unit_names_are_compared_as_written() {
    let table = vec![edge("µm", 0.001, "mm"), edge("mm", 0.1, "cm"), edge("Mm", 1000.0, "km")];
    assert_eq!(find_conversion_steps("µm", "cm", &table), Some(vec![0, 1]));
    assert_eq!(find_conversion_steps("µm", "km", &table), None);
    assert_eq!(find_conversion_steps("um", "cm", &table), None);
    assert_eq!(find_conversion_steps(" mm", "cm", &table), None);
}

#[test]
fn empty_name_is_a_unit_like_any_other() {
    let table = vec![edge("", 2.0, "a"), edge("a", 3.0, "")];
    assert_eq!(find_conversion_steps("", "a", &table), Some(vec![0]));
    assert_eq!(find_conversion_steps("", "", &table), Some(vec![0, 1]));
}

#[test]
fn long_chain_is_followed_to_its_end() {
    let names: Vec<String> = (0..40).map(|i| format!("u{i}")).collect();
    let mut table: Vec<Edge> = Vec::new();
    for i in 0..39 {
        table.push(edge(&names[i], 2.0, &names[i + 1]));
    }
    let steps = find_conversion_steps("u0", "u39", &table).expect("the chain links u0 and u39");
    assert_eq!(steps, (0..39).collect::<Vec<usize>>());
    assert_eq!(find_conversion_steps("u39", "u0", &table), None);
}

/// Whether `steps` chains through `table` from `from` to `to` and takes no link twice.
fn chains(table: &Vec<Edge>, from: &str, to: &str, steps: &Vec<usize>) -> bool {
    if steps.is_empty() || table[steps[0]].source_unit != from {
        return false;
    }
    if table[steps[steps.len() - 1]].target_unit != to {
        return false;
    }
    for i in 1..steps.len() {
        if table[steps[i - 1]].target_unit != table[steps[i]].source_unit {
            return false;
        }
    }
    for i in 0..steps.len() {
        for j in (i + 1)..steps.len() {
            if table[steps[i]] == table[steps[j]] {
                return false;
            }
        }
    }
    true
}

/// The first sequence of `len` positions, in the order of the table, that is a path.
fn first_of_length(
    table: &Vec<Edge>,
    from: &str,
    to: &str,
    len: usize,
    steps: &mut Vec<usize>,
) -> Option<Vec<usize>> {
    if steps.len() == len {
        return if chains(table, from, to, steps) { Some(steps.clone()) } else { None };
    }
    for next in 0..table.len() {
        steps.push(next);
        let found = first_of_length(table, from, to, len, steps);
        steps.pop();
        if found.is_some() {
            return found;
        }
    }
    None
}

/// The first of the shortest paths, found by trying every sequence of positions.
fn by_trying_everything(table: &Vec<Edge>, from: &str, to: &str) -> Option<Vec<usize>> {
    for len in 1..=table.len() {
        let found = first_of_length(table, from, to, len, &mut Vec::new());
        if found.is_some() {
            return found;
        }
    }
    None
}

#[test]
fn search_agrees_with_trying_every_sequence() {
    let units = ["a", "b", "c", "d"];
    let mut state: u64 = 0x2545_f491_4f6c_dd1d;
    let mut next = |bound: u64| {
        state = state.wrapping_mul(6364136223846793005).wrapping_add(1442695040888963407);
        (state >> 33) % bound
    };
    let mut with_path = 0;
    let mut without_path = 0;
    for _ in 0..400 {
        let size = next(6) as usize;
        let mut table: Vec<Edge> = Vec::new();
        for _ in 0..size {
            let source = units[next(4) as usize];
            let target = units[next(4) as usize];
            table.push(edge(source, 2.0, target));
        }
        for from in units {
            for to in units {
                let expected = by_trying_everything(&table, from, to);
                assert_eq!(find_conversion_steps(from, to, &table), expected);
                match expected {
                    Some(_) => with_path += 1,
                    None => without_path += 1,
                }
            }
        }
    }
    assert!(with_path > 500);
    assert!(without_path > 500);
}
