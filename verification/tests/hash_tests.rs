//! Tests for fields, the hash adapter, and the hash table.

use hash::hash::ExtendOption;
use hash::hash::Field;
use hash::hash::HashFunction;
use hash::hash::HashNode;
use hash::hash::HashScheme;
use hash::hash::HashTable;
use hash::hash::Hashable;

fn new_table(
    b_size: usize,
    b_num: usize,
    func: HashFunction,
    sche: HashScheme,
    h: usize,
    op: ExtendOption,
    load_num: usize,
    load_den: usize,
) -> HashTable {
    HashTable::new(b_size, b_num, func, sche, h, op, load_num, load_den)
}

/// Finds an integer-pair key whose home slot in an empty table is `want`.
fn key_with_home(table: &HashTable, want: usize, salt: i32) -> (Field, Field) {
    let mut i: i32 = salt;
    loop {
        let key = (Field::IntField(i), Field::IntField(salt));
        let idx = table
            .get_indexes((&key.0, &key.1))
            .expect("empty table must yield indexes");
        if idx.1 == want {
            return key;
        }
        i += 1;
        assert!(i < salt + 100_000, "no key found with the wanted home slot");
    }
}

#[test]
fn t_field() {
    let f_int = Field::IntField(1);
    let f_str = Field::StringField(String::from("Hello"));
    assert_eq!(1, f_int.unwrap_int_field());
    assert_eq!("Hello", f_str.unwrap_string_field());
}

#[test]
fn t_my_enum() {
    let s = HashFunction::FarmHash;
    match s {
        HashFunction::MurmurHash3 => {
            println!("Murmur3")
        }
        HashFunction::T1haHash => {
            println!("T1")
        }
        HashFunction::FarmHash => {
            println!("Farm")
        }
        HashFunction::StdHash => {
            println!("Std")
        }
    };
}

#[test]
fn t_std_hash() {
    let f_int = Field::IntField(1);
    let f_str = Field::StringField(String::from("Hello"));
    assert_eq!(1742378985846435984 as usize, f_int.std_hash());
    assert_eq!(12991522711919756218 as usize, f_str.std_hash());
}

#[test]
fn t_farm_hash() {
    let f_int = Field::IntField(1);
    let f_str = Field::StringField(String::from("Hello"));
    let f_str2 = Field::StringField(String::from("There"));
    let _sum = f_int.farm_hash() + f_str2.farm_hash();
    assert_eq!(538479481099171624 as usize, f_int.farm_hash());
    assert_eq!(15404698994557526151 as usize, f_str.farm_hash());
}

#[test]
fn t_murmur3_hash() {
    let f_int = Field::IntField(1);
    let f_str = Field::StringField(String::from("Hello"));
    assert_eq!(854115492 as usize, f_int.murmur_hash3());
    assert_eq!(316307400 as usize, f_str.murmur_hash3());
}

#[test]
fn t_t1ha_hash() {
    let f_int = Field::IntField(1);
    let f_str = Field::StringField(String::from("Hello"));
    assert_eq!(4348539232621042483 as usize, f_int.t1ha_hash());
    assert_eq!(3284986864571460951 as usize, f_str.t1ha_hash());
}

#[test]
fn t_hash_node() {
    let mut node = HashNode::default();
    assert_eq!((Field::IntField(0), Field::IntField(0)), node.key);
    assert_eq!(0, node.value);
    assert_eq!(false, node.taken);
    assert_eq!(usize::MAX, node.dis);

    let name = Field::StringField(String::from("Mark"));
    let course_taken = Field::IntField(6);
    let hash_key = (name, course_taken);

    node = HashNode {
        key: hash_key,
        value: 1,
        taken: true,
        dis: 0,
    };
    assert_eq!(
        (Field::StringField(String::from("Mark")), Field::IntField(6)),
        node.key
    );
    assert_eq!(1, node.value);
    assert_eq!(true, node.taken);
    assert_eq!(0, node.dis);
}

#[test]
fn t_table_new() {
    let table = new_table(
        10,
        2,
        HashFunction::StdHash,
        HashScheme::LinearProbe,
        4,
        ExtendOption::ExtendBucketSize,
        9,
        10,
    );
    assert_eq!(2, table.BUCKET_NUMBER);
    assert_eq!(10, table.BUCKET_SIZE);
    assert_eq!(vec![0; 2], table.taken_count);
    assert_eq!(2, table.buckets.len());
    assert_eq!(10, table.buckets[0].len());
    assert_eq!(false, table.buckets[0][0].taken);
    assert_eq!(
        (Field::IntField(0), Field::IntField(0)),
        table.buckets[0][0].key
    );
    assert_eq!(0, table.buckets[0][0].value);
    assert_eq!(4, table.H);
}

#[test]
fn t_get_bucket_index() {
    let table = new_table(
        10,
        2,
        HashFunction::MurmurHash3,
        HashScheme::LinearProbe,
        4,
        ExtendOption::ExtendBucketSize,
        9,
        10,
    );
    let name = Field::StringField(String::from("Mark"));
    let course_taken = Field::IntField(6);
    let hash_key = (&name, &course_taken);
    let b = table.get_bucket_index(hash_key).unwrap();
    assert!(b < 2);
    // the projection is deterministic
    assert_eq!(b, table.get_bucket_index(hash_key).unwrap());
}

#[test]
fn t_linear_probe() {
    let mut table = new_table(
        10,
        1,
        HashFunction::StdHash,
        HashScheme::LinearProbe,
        4,
        ExtendOption::ExtendBucketSize,
        9,
        10,
    );
    table.buckets[0][0].taken = true;

    let name = Field::StringField(String::from("Mark"));
    let course_taken = Field::IntField(6);
    assert_eq!(table.linear_probe((&name, &course_taken), 0, 0).unwrap(), 1);

    table.buckets[0][1].key = (name, course_taken);
    table.buckets[0][1].taken = true;
    let name = Field::StringField(String::from("Mark"));
    let course_taken = Field::IntField(6);
    assert_eq!(table.linear_probe((&name, &course_taken), 0, 0).unwrap(), 1);

    let name2 = Field::StringField(String::from("Jack"));
    let course_taken2 = Field::IntField(3);
    table.buckets[0][1].key = (name2, course_taken2);
    table.buckets[0][1].taken = true;
    assert_eq!(table.linear_probe((&name, &course_taken), 0, 0).unwrap(), 2);
}

#[test]
fn t_robin_hood() {
    let mut table = new_table(
        10,
        1,
        HashFunction::StdHash,
        HashScheme::RobinHood,
        4,
        ExtendOption::ExtendBucketSize,
        9,
        10,
    );

    let name = Field::StringField(String::from("Adam"));
    let course_taken = Field::IntField(6);
    let node = HashNode {
        key: (name, course_taken),
        value: 1,
        taken: true,
        dis: 0,
    };
    table.buckets[0][0] = node;

    let name = Field::StringField(String::from("Ben"));
    let course_taken = Field::IntField(12);
    assert_eq!(
        table.robin_hood((&name, &course_taken), 0, 0).unwrap(),
        (1 as usize, 1 as usize)
    );
    let node = HashNode {
        key: (name, course_taken),
        value: 1,
        taken: true,
        dis: 1,
    };
    table.buckets[0][1] = node;

    let name = Field::StringField(String::from("Chris"));
    let course_taken = Field::IntField(1);
    assert_eq!(
        table.robin_hood((&name, &course_taken), 0, 1).unwrap(),
        (2 as usize, 1 as usize)
    );
    let node = HashNode {
        key: (name, course_taken),
        value: 1,
        taken: true,
        dis: 1,
    };
    table.buckets[0][2] = node;

    let name = Field::StringField(String::from("David"));
    let course_taken = Field::IntField(3);
    assert_eq!(
        table.robin_hood((&name, &course_taken), 0, 0).unwrap(),
        (2 as usize, 2 as usize)
    );
    let node = HashNode {
        key: (name, course_taken),
        value: 1,
        taken: true,
        dis: 2,
    };
    table.buckets[0][2] = node;

    let name = Field::StringField(String::from("Chris"));
    let course_taken = Field::IntField(1);
    assert_eq!(
        table.robin_hood((&name, &course_taken), 0, 1).unwrap(),
        (3 as usize, 2 as usize)
    );
    let node = HashNode {
        key: (name, course_taken),
        value: 1,
        taken: true,
        dis: 2,
    };
    table.buckets[0][3] = node;
}

#[test]
fn t_get_indexes() {
    let table = new_table(
        10,
        1,
        HashFunction::FarmHash,
        HashScheme::LinearProbe,
        4,
        ExtendOption::ExtendBucketSize,
        9,
        10,
    );
    let name = Field::StringField(String::from("Mark"));
    let course_taken = Field::IntField(6);

    let indexes = table.get_indexes((&name, &course_taken)).unwrap();
    assert_eq!(0, indexes.0);
    assert!(indexes.1 < 10);
    assert_eq!(0, indexes.2);
    // on an empty table the walk stops at the home slot, deterministically
    assert_eq!(indexes, table.get_indexes((&name, &course_taken)).unwrap());
}

#[test]
fn t_get_value() {
    let mut table = new_table(
        10,
        1,
        HashFunction::FarmHash,
        HashScheme::LinearProbe,
        4,
        ExtendOption::ExtendBucketSize,
        9,
        10,
    );

    let name = Field::StringField(String::from("Mark"));
    let course_taken = Field::IntField(6);
    let indexes = table.get_indexes((&name, &course_taken)).unwrap();
    table.buckets[indexes.0][indexes.1].key = (name, course_taken);
    table.buckets[indexes.0][indexes.1].value = 1;
    table.buckets[indexes.0][indexes.1].taken = true;
    table.buckets[indexes.0][indexes.1].dis = 0;
    table.taken_count[indexes.0] = 1;

    let v = table
        .get_value((
            &Field::StringField(String::from("Mark")),
            &Field::IntField(6),
        ))
        .unwrap();
    let expected_v = 1 as usize;
    assert_eq!(&expected_v, v);
}

#[test]
fn t_get_mut_value() {
    let mut table = new_table(
        10,
        1,
        HashFunction::FarmHash,
        HashScheme::LinearProbe,
        4,
        ExtendOption::ExtendBucketSize,
        9,
        10,
    );

    let name = Field::StringField(String::from("Mark"));
    let course_taken = Field::IntField(6);
    let indexes = table.get_indexes((&name, &course_taken)).unwrap();
    table.buckets[indexes.0][indexes.1].key = (name, course_taken);
    table.buckets[indexes.0][indexes.1].value = 1;
    table.buckets[indexes.0][indexes.1].taken = true;
    table.buckets[indexes.0][indexes.1].dis = 0;
    table.taken_count[indexes.0] = 1;

    let v = table
        .get_mut_value((
            &Field::StringField(String::from("Mark")),
            &Field::IntField(6),
        ))
        .unwrap();
    let expected_v = 1 as usize;
    assert_eq!(&expected_v, v);
    // writing through the borrow changes the stored count
    *v = 7;
    let v2 = table
        .get_value((
            &Field::StringField(String::from("Mark")),
            &Field::IntField(6),
        ))
        .unwrap();
    assert_eq!(&(7 as usize), v2);
}

#[test]
fn t_insert() {
    let mut table = new_table(
        10,
        2,
        HashFunction::T1haHash,
        HashScheme::LinearProbe,
        4,
        ExtendOption::ExtendBucketSize,
        9,
        10,
    );

    let name1 = Field::StringField(String::from("Mark"));
    let course_taken1 = Field::IntField(6);
    let indexes1 = table.get_indexes((&name1, &course_taken1)).unwrap();

    table.insert((name1, course_taken1), 1).unwrap();
    assert_eq!(
        Field::StringField(String::from("Mark")),
        table.buckets[indexes1.0][indexes1.1].key.0
    );
    assert_eq!(
        Field::IntField(6),
        table.buckets[indexes1.0][indexes1.1].key.1
    );
    assert_eq!(1, table.buckets[indexes1.0][indexes1.1].value);
    assert_eq!(true, table.buckets[indexes1.0][indexes1.1].taken);
    assert_eq!(1, table.taken_count[indexes1.0]);

    let name1_2 = Field::StringField(String::from("Mark"));
    let course_taken1_2 = Field::IntField(6);
    table.insert((name1_2, course_taken1_2), 1).unwrap();
    assert_eq!(
        Field::StringField(String::from("Mark")),
        table.buckets[indexes1.0][indexes1.1].key.0
    );
    assert_eq!(
        Field::IntField(6),
        table.buckets[indexes1.0][indexes1.1].key.1
    );
    assert_eq!(2, table.buckets[indexes1.0][indexes1.1].value);
    assert_eq!(true, table.buckets[indexes1.0][indexes1.1].taken);
    assert_eq!(1, table.taken_count[indexes1.0]);
}

#[test]
fn t_extend() {
    let mut table = new_table(
        5,
        1,
        HashFunction::FarmHash,
        HashScheme::LinearProbe,
        4,
        ExtendOption::ExtendBucketSize,
        3,
        4,
    );

    let name = Field::StringField(String::from("Adam"));
    let course_taken = Field::IntField(0);
    table.insert((name, course_taken), 1).unwrap();

    let name = Field::StringField(String::from("Ben"));
    let course_taken = Field::IntField(1);
    table.insert((name, course_taken), 1).unwrap();

    let name = Field::StringField(String::from("Chris"));
    let course_taken = Field::IntField(1);
    table.insert((name, course_taken), 1).unwrap();

    // before the first rehash: the bound is 5 * 3/4 = 3
    assert_eq!(3, table.taken_count[0]);
    assert_eq!(5, table.BUCKET_SIZE);

    let name = Field::StringField(String::from("David"));
    let course_taken = Field::IntField(1);
    table.insert((name, course_taken), 1).unwrap();

    // after the first rehash: the bound is 10 * 3/4 = 7
    assert_eq!(4, table.taken_count[0]);
    assert_eq!(10, table.BUCKET_SIZE);

    let name = Field::StringField(String::from("Eva"));
    let course_taken = Field::IntField(85);
    table.insert((name, course_taken), 1).unwrap();

    let name = Field::StringField(String::from("Frank"));
    let course_taken = Field::IntField(16);
    table.insert((name, course_taken), 1).unwrap();

    let name = Field::StringField(String::from("Grant"));
    let course_taken = Field::IntField(63);
    table.insert((name, course_taken), 1).unwrap();

    // before the second rehash
    assert_eq!(7, table.taken_count[0]);
    assert_eq!(10, table.BUCKET_SIZE);

    let name = Field::StringField(String::from("Hilton"));
    let course_taken = Field::IntField(11);
    table.insert((name, course_taken), 1).unwrap();

    // after the second rehash
    assert_eq!(8, table.taken_count[0]);
    assert_eq!(20, table.BUCKET_SIZE);
}

#[test]
fn t_insert_robin_hood() {
    // four keys whose home slots are 0, 1, 1, 0 in arrival order
    let mut table = new_table(
        4,
        1,
        HashFunction::StdHash,
        HashScheme::RobinHood,
        4,
        ExtendOption::ExtendBucketSize,
        1,
        1,
    );
    let k1 = key_with_home(&table, 0, 0);
    let k2 = key_with_home(&table, 1, 200_000);
    let k3 = key_with_home(&table, 1, 400_000);
    let k4 = key_with_home(&table, 0, 600_000);
    assert_ne!(k1, k4);
    assert_ne!(k2, k3);

    table.insert(k1.clone(), 1).unwrap();
    assert_eq!(table.buckets[0][0].key, k1);
    assert_eq!(table.buckets[0][0].dis, 0);

    table.insert(k2.clone(), 1).unwrap();
    assert_eq!(table.buckets[0][1].key, k2);
    assert_eq!(table.buckets[0][1].dis, 0);

    table.insert(k3.clone(), 1).unwrap();
    assert_eq!(table.buckets[0][2].key, k3);
    assert_eq!(table.buckets[0][2].dis, 1);

    // the fourth insert displaces the first occupant of home 1, which ends
    // at slot 3 with displacement 2
    table.insert(k4.clone(), 1).unwrap();
    assert_eq!(table.buckets[0][1].key, k4);
    assert_eq!(table.buckets[0][1].dis, 1);
    assert_eq!(table.buckets[0][2].key, k3);
    assert_eq!(table.buckets[0][2].dis, 1);
    assert_eq!(table.buckets[0][3].key, k2);
    assert_eq!(table.buckets[0][3].dis, 2);

    let dis: Vec<usize> = (0..4).map(|i| table.buckets[0][i].dis).collect();
    assert_eq!(dis, vec![0, 1, 1, 2]);

    // Robin Hood run law: along the run the displacement rises by at most
    // one per slot
    for i in 0..3 {
        assert!(table.buckets[0][i + 1].dis <= table.buckets[0][i].dis + 1);
    }
}

#[test]
fn t_hopscotch() {
    let mut table = new_table(
        13,
        1,
        HashFunction::FarmHash,
        HashScheme::Hopscotch,
        4,
        ExtendOption::ExtendBucketSize,
        1,
        1,
    );
    // pre-load all slots except index 12 with filler keys
    for i in 0..12 {
        table.buckets[0][i].taken = true;
        table.buckets[0][i].key = (Field::StringField(String::from("M")), Field::IntField(i as i32));
        table.buckets[0][i].dis = 0;
    }
    table.hop_info[0][3] = 4; // 0100
    table.hop_info[0][5] = 10; // 1010
    table.hop_info[0][7] = 4; // 0100
    table.hop_info[0][9] = 4; // 0100
    table.taken_count[0] = 12;

    // insert a key whose home slot is 3: the free slot at 12 bubbles back
    // into the neighborhood of 3
    let key = key_with_home(&table, 3, 0);
    table.insert(key, 1).unwrap();
    assert_eq!(table.hop_info[0][9], 1);
    assert_eq!(table.hop_info[0][7], 1);
    assert_eq!(table.hop_info[0][5], 3);
    assert_eq!(table.hop_info[0][3], 6);
    assert_eq!(table.buckets[0][12].taken, true);
    assert_eq!(table.taken_count[0], 13);
}

#[test]
fn t_hopscotch2() {
    let mut table = new_table(
        100,
        1,
        HashFunction::FarmHash,
        HashScheme::Hopscotch,
        10,
        ExtendOption::ExtendBucketSize,
        3,
        4,
    );

    let names = [
        ("Adamdsf", 0),
        ("Bensdfsdfds", 1),
        ("Chrissdfds", 1),
        ("Daviddf", 1),
        ("Evadsfsdfsdfsdfsd", 85),
        ("Franksdf", 16),
        ("Grantsdf", 63),
        ("Hilton", 11),
        ("Idamsdfsdf", 23),
        ("Jendf", 656),
        ("Khrissdfs", 989),
        ("Lavid", 45),
        ("Mva", 9879),
        ("Nrank", 454),
    ];
    for (n, c) in names.iter() {
        let name = Field::StringField(String::from(*n));
        let course_taken = Field::IntField(*c);
        table.insert((name, course_taken), 1).unwrap();
    }
    let pairs = [
        ("Osdafhj", "Ohajd"),
        ("Podfh", "Pdfki"),
        ("Qkdsfai", "Qjidif"),
        ("Rjksdf", "Rkdsfi"),
        ("Sjkdfi", "Sjkdfi"),
        ("Thsdud", "Thjksdfi"),
    ];
    for (a, b) in pairs.iter() {
        let name = Field::StringField(String::from(*a));
        let course_taken = Field::StringField(String::from(*b));
        table.insert((name, course_taken), 1).unwrap();
    }
    // every inserted key is found with count 1
    for (n, c) in names.iter() {
        let name = Field::StringField(String::from(*n));
        let course_taken = Field::IntField(*c);
        assert_eq!(table.get_value((&name, &course_taken)), Some(&1));
    }
}

#[test]
fn t_count_aggregation() {
    let mut table = new_table(
        10,
        2,
        HashFunction::StdHash,
        HashScheme::LinearProbe,
        4,
        ExtendOption::ExtendBucketSize,
        9,
        10,
    );
    let key = (
        Field::StringField(String::from("CS")),
        Field::StringField(String::from("Adam")),
    );
    table.insert(key.clone(), 1).unwrap();
    table.insert(key.clone(), 1).unwrap();
    assert_eq!(table.get_value((&key.0, &key.1)), Some(&2));
}

#[test]
fn t_no_phantom_keys() {
    let mut table = new_table(
        10,
        2,
        HashFunction::FarmHash,
        HashScheme::RobinHood,
        4,
        ExtendOption::ExtendBucketSize,
        9,
        10,
    );
    table
        .insert((Field::IntField(1), Field::IntField(2)), 5)
        .unwrap();
    // a key never inserted is not found, under any scheme
    let ghost_key = (Field::IntField(3), Field::IntField(4));
    assert_eq!(table.get_value((&ghost_key.0, &ghost_key.1)), None);
    let empty = new_table(
        13,
        1,
        HashFunction::T1haHash,
        HashScheme::Hopscotch,
        4,
        ExtendOption::ExtendBucketSize,
        1,
        1,
    );
    assert_eq!(empty.get_value((&ghost_key.0, &ghost_key.1)), None);
}

#[test]
fn t_occupancy_and_load_bound() {
    let mut table = new_table(
        8,
        2,
        HashFunction::MurmurHash3,
        HashScheme::LinearProbe,
        4,
        ExtendOption::ExtendBucketSize,
        3,
        4,
    );
    for i in 0..10 {
        table
            .insert((Field::IntField(i), Field::IntField(-i)), 1)
            .unwrap();
        // occupancy counters match the buckets, and respect the load bound
        for b in 0..table.BUCKET_NUMBER {
            let occupied = table.buckets[b].iter().filter(|n| n.taken).count();
            assert_eq!(table.taken_count[b], occupied);
            assert!(table.taken_count[b] <= table.BUCKET_SIZE * 3 / 4);
        }
    }
}

#[test]
fn t_load_factor_rehash() {
    // the fourth insert exceeds 5 * 0.75 and doubles the capacity
    let mut table = new_table(
        5,
        1,
        HashFunction::StdHash,
        HashScheme::LinearProbe,
        4,
        ExtendOption::ExtendBucketSize,
        3,
        4,
    );
    let keys: Vec<(Field, Field)> = (0..4)
        .map(|i| (Field::IntField(i), Field::IntField(i)))
        .collect();
    for k in keys.iter() {
        table.insert(k.clone(), 1).unwrap();
    }
    assert_eq!(10, table.BUCKET_SIZE);
    assert_eq!(4, table.taken_count[0]);
    for k in keys.iter() {
        assert_eq!(table.get_value((&k.0, &k.1)), Some(&1));
    }
}

#[test]
fn t_growth_policy_buckets() {
    // filling to nine and inserting once more doubles the bucket count
    let mut table = new_table(
        10,
        1,
        HashFunction::StdHash,
        HashScheme::LinearProbe,
        4,
        ExtendOption::ExtendBucketNumber,
        9,
        10,
    );
    let keys: Vec<(Field, Field)> = (0..10)
        .map(|i| (Field::IntField(i), Field::IntField(i * 7)))
        .collect();
    for k in keys.iter().take(9) {
        table.insert(k.clone(), 1).unwrap();
    }
    assert_eq!(1, table.BUCKET_NUMBER);
    assert_eq!(9, table.taken_count[0]);
    table.insert(keys[9].clone(), 1).unwrap();
    assert_eq!(2, table.BUCKET_NUMBER);
    assert_eq!(10, table.BUCKET_SIZE);
    let total: usize = table.taken_count.iter().sum();
    assert_eq!(10, total);
    for k in keys.iter() {
        assert_eq!(table.get_value((&k.0, &k.1)), Some(&1));
    }
}

#[test]
fn t_rehash_preserves_counts() {
    let mut table = new_table(
        16,
        2,
        HashFunction::FarmHash,
        HashScheme::RobinHood,
        4,
        ExtendOption::ExtendBucketSize,
        9,
        10,
    );
    for i in 0..8 {
        table
            .insert((Field::IntField(i), Field::IntField(0)), (i + 1) as usize)
            .unwrap();
    }
    table.extend().unwrap();
    assert_eq!(32, table.BUCKET_SIZE);
    for i in 0..8 {
        let k = (Field::IntField(i), Field::IntField(0));
        assert_eq!(table.get_value((&k.0, &k.1)), Some(&((i + 1) as usize)));
    }
    let total: usize = table.taken_count.iter().sum();
    assert_eq!(8, total);
}

#[test]
fn t_insert_count_overflow() {
    let mut table = new_table(
        10,
        1,
        HashFunction::StdHash,
        HashScheme::LinearProbe,
        4,
        ExtendOption::ExtendBucketSize,
        9,
        10,
    );
    let key = (Field::IntField(1), Field::IntField(1));
    table.insert(key.clone(), usize::MAX).unwrap();
    // aggregating past the machine limit fails and changes nothing
    assert!(table.insert(key.clone(), 1).is_err());
    assert_eq!(table.get_value((&key.0, &key.1)), Some(&usize::MAX));
}

#[test]
fn t_to_bytes() {
    let f_int = Field::IntField(1);
    assert_eq!(f_int.to_bytes(), vec![1u8, 0, 0, 0]);
    let f_neg = Field::IntField(-2);
    assert_eq!(f_neg.to_bytes(), vec![0xfeu8, 0xff, 0xff, 0xff]);
    let f_str = Field::StringField(String::from("AB"));
    let mut expected: Vec<u8> = vec![2, 0, 0, 0, 0, 0, 0, 0];
    expected.push(65);
    expected.push(66);
    expected.extend(std::iter::repeat(0u8).take(126));
    assert_eq!(f_str.to_bytes(), expected);
    assert_eq!(f_str.to_bytes().len(), 136);
}

#[test]
fn t_field_default() {
    let f = Field::default();
    assert_eq!(f, Field::IntField(0));
}
