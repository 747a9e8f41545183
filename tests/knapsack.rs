use contest_lib::knapsack::{knapsack01, Item};

#[derive(Copy, Clone, Eq, PartialEq, Default, Hash, Debug)]
struct Bag {
    value: u64,
    weight: u64,
}

impl Bag {
    fn new(value: u64, weight: u64) -> Bag {
        Bag { value, weight }
    }
}

impl Item for Bag {
    fn spec_value(&self) -> u64 {
        self.value
    }

    fn spec_weight(&self) -> u64 {
        self.weight
    }

    fn value(&self) -> u64 {
        self.value
    }

    fn weight(&self) -> u64 {
        self.weight
    }
}

fn knapsack01_rec<T: Item>(items: &[T], limit: u64) -> u64 {
    if let Some((item, items)) = items.split_last() {
        if item.weight() > limit {
            knapsack01_rec(items, limit)
        } else {
            std::cmp::max(
                knapsack01_rec(items, limit),
                knapsack01_rec(items, limit - item.weight()) + item.value(),
            )
        }
    } else {
        0
    }
}

/// A small xorshift generator, so that the differential runs are repeatable.
struct Rng(u64);

impl Rng {
    fn below(&mut self, lo: u64, hi: u64) -> u64 {
        self.0 ^= self.0 << 13;
        self.0 ^= self.0 >> 7;
        self.0 ^= self.0 << 17;
        lo + self.0 % (hi - lo)
    }
}

#[test]
fn test_knapsack_rec() {
    let bags: [Bag; 0] = [];
    let limit = 10;
    assert_eq!(knapsack01(&bags, limit), 0);

    let bags = [Bag::new(3, 2), Bag::new(2, 1), Bag::new(2, 1), Bag::new(5, 2)];
    let limit = 4;
    assert_eq!(knapsack01_rec(&bags, limit), 9);

    let bags = [Bag::new(2, 1), Bag::new(5, 2)];
    let limit = 4;
    assert_eq!(knapsack01(&bags, limit), 7);

    let bags = [Bag::new(3, 2), Bag::new(2, 1), Bag::new(2, 1), Bag::new(5, 2)];
    let limit = 4;
    assert_eq!(knapsack01(&bags, limit), 9);
}

#[test]
fn test_knapsack() {
    let bags: [Bag; 0] = [];
    let limit = 10;
    assert_eq!(knapsack01(&bags, limit), 0);

    let bags = [Bag::new(3, 2)];
    let limit = 1;
    assert_eq!(knapsack01(&bags, limit), 0);

    let bags = [Bag::new(2, 1), Bag::new(5, 2)];
    let limit = 4;
    assert_eq!(knapsack01(&bags, limit), 7);

    let bags = [Bag::new(3, 2), Bag::new(2, 1), Bag::new(2, 1), Bag::new(5, 2)];
    let limit = 4;
    assert_eq!(knapsack01(&bags, limit), 9);

    let mut rng = Rng(0x2545_f491_4f6c_dd1d);
    for _ in 0..10 {
        let size = rng.below(1, 10);
        let bags: Vec<Bag> = (0..size)
            .map(|_| Bag::new(rng.below(0, 100), rng.below(0, 100)))
            .collect();
        let limit = rng.below(0, 250);
        assert_eq!(knapsack01(&bags, limit), knapsack01_rec(&bags, limit));
    }
}

#[test]
fn knapsack_matches_recursion_on_many_random_inputs() {
    let mut rng = Rng(0x9e37_79b9_7f4a_7c15);
    for _ in 0..400 {
        let size = rng.below(0, 13);
        let bags: Vec<Bag> = (0..size)
            .map(|_| Bag::new(rng.below(0, 100), rng.below(0, 100)))
            .collect();
        let limit = rng.below(0, 250);
        assert_eq!(knapsack01(&bags, limit), knapsack01_rec(&bags, limit));
    }
}

#[test]
fn knapsack_grows_with_capacity() {
    let bags = [Bag::new(3, 2), Bag::new(2, 1), Bag::new(2, 1), Bag::new(5, 2)];
    let values: Vec<u64> = (0..8).map(|limit| knapsack01(&bags, limit)).collect();
    assert_eq!(values, vec![0, 2, 5, 7, 9, 10, 12, 12]);
    for w in values.windows(2) {
        assert!(w[0] <= w[1]);
    }
}

#[test]
fn knapsack_grows_with_items() {
    let bags = [Bag::new(2, 1), Bag::new(5, 2)];
    let more = [Bag::new(2, 1), Bag::new(4, 1), Bag::new(5, 2)];
    assert_eq!(knapsack01(&bags, 2), 5);
    assert_eq!(knapsack01(&more, 2), 6);
}

#[test]
fn knapsack_zero_capacity() {
    let bags = [Bag::new(3, 2), Bag::new(2, 1), Bag::new(7, 5)];
    assert_eq!(knapsack01(&bags, 0), 0);
    let free = [Bag::new(3, 2), Bag::new(4, 0)];
    assert_eq!(knapsack01(&free, 0), 4);
}

#[test]
fn knapsack_heavy_item_adds_nothing() {
    let bags = [Bag::new(2, 1), Bag::new(5, 2)];
    let with_heavy = [Bag::new(2, 1), Bag::new(5, 2), Bag::new(100, 5)];
    assert_eq!(knapsack01(&with_heavy, 4), knapsack01(&bags, 4));
    assert_eq!(knapsack01(&[Bag::new(3, 2)], 1), 0);
}

#[test]
fn knapsack_deep_sequence() {
    let mut bags = vec![Bag::new(1, 1000); 300_000];
    bags.push(Bag::new(6, 3));
    bags.insert(0, Bag::new(4, 2));
    bags.insert(150_000, Bag::new(5, 4));
    assert_eq!(knapsack01(&bags, 6), 10);
    assert_eq!(knapsack01(&bags, 999), 15);
}
