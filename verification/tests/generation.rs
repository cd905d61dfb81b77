use referral_codes::{generate, generate_one, is_feasible, Charset, Config, Pattern};

#[test]
fn test_generate() {
    let config = Config {
        charset: Charset::Alphanumeric,
        count: 3,
        pattern: Pattern::Length(8),
    };

    let result = generate(&config).unwrap();

    assert_eq!(3, result.len());
}

#[test]
fn test_fail_generate() {
    let config = Config {
        charset: Charset::Alphanumeric,
        count: 100,
        pattern: Pattern::Length(1),
    };

    let result = generate(&config);

    assert!(result.is_err())
}

#[test]
fn charset_len_values() {
    assert_eq!(Charset::Numeric.len(), 10);
    assert_eq!(Charset::Alphabetic.len(), 52);
    assert_eq!(Charset::Alphanumeric.len(), 62);
    assert_eq!(Charset::Custom("ABC".to_string()).len(), 3);
    assert_eq!(Charset::Custom("".to_string()).len(), 0);
}

#[test]
fn pattern_size_values() {
    assert_eq!(Pattern::Length(8).size(), 8);
    assert_eq!(Pattern::Length(0).size(), 0);
    assert_eq!(Pattern::Pattern("ABC###".to_string()).size(), 3);
    assert_eq!(Pattern::Pattern("###-###".to_string()).size(), 6);
    assert_eq!(Pattern::Pattern("ABC".to_string()).size(), 0);
}

#[test]
fn pattern_template_values() {
    assert_eq!(Pattern::Length(3).pattern(), "###");
    assert_eq!(Pattern::Length(0).pattern(), "");
    assert_eq!(Pattern::Pattern("ABC###".to_string()).pattern(), "ABC###");
}

#[test]
fn generate_one_fixed_length() {
    let config = Config {
        pattern: Pattern::Length(8),
        count: 1,
        charset: Charset::Alphanumeric,
    };

    let code = generate_one(&config);

    assert_eq!(code.chars().count(), 8);
    assert!(code.chars().all(|c| c.is_ascii_alphanumeric()));
}

#[test]
fn generate_one_keeps_literals() {
    let config = Config {
        pattern: Pattern::Pattern("AB#-#".to_string()),
        count: 1,
        charset: Charset::Numeric,
    };

    let code = generate_one(&config);
    let chars: Vec<char> = code.chars().collect();

    assert_eq!(chars.len(), 5);
    assert_eq!(chars[0], 'A');
    assert_eq!(chars[1], 'B');
    assert!(chars[2].is_ascii_digit());
    assert_eq!(chars[3], '-');
    assert!(chars[4].is_ascii_digit());
}

#[test]
fn generate_one_single_custom_char() {
    let config = Config {
        pattern: Pattern::Pattern("#".to_string()),
        count: 1,
        charset: Charset::Custom("Z".to_string()),
    };

    assert_eq!(generate_one(&config), "Z");
}

#[test]
fn feasibility_boundary() {
    let ok = Config {
        charset: Charset::Alphanumeric,
        count: 62,
        pattern: Pattern::Length(1),
    };
    assert!(is_feasible(&ok));
    let result = generate(&ok).unwrap();
    assert_eq!(result.len(), 62);

    let too_many = Config {
        charset: Charset::Alphanumeric,
        count: 63,
        pattern: Pattern::Length(1),
    };
    assert!(!is_feasible(&too_many));
    assert!(generate(&too_many).is_err());
}

#[test]
fn zero_wildcard_boundary() {
    let one = Config {
        pattern: Pattern::Pattern("ABC".to_string()),
        count: 1,
        charset: Charset::Alphanumeric,
    };
    let result = generate(&one).unwrap();
    assert_eq!(result, vec!["ABC".to_string()]);

    let two = Config {
        pattern: Pattern::Pattern("ABC".to_string()),
        count: 2,
        charset: Charset::Alphanumeric,
    };
    assert!(generate(&two).is_err());
}

#[test]
fn zero_count_boundary() {
    let empty_pool = Config {
        pattern: Pattern::Length(4),
        count: 0,
        charset: Charset::Custom("".to_string()),
    };
    assert_eq!(generate(&empty_pool).unwrap().len(), 0);

    let plain = Config {
        pattern: Pattern::Pattern("X#Y".to_string()),
        count: 0,
        charset: Charset::Numeric,
    };
    assert_eq!(generate(&plain).unwrap().len(), 0);
}

#[test]
fn three_distinct_alphanumeric_codes() {
    let config = Config {
        charset: Charset::Alphanumeric,
        count: 3,
        pattern: Pattern::Length(8),
    };

    let result = generate(&config).unwrap();

    assert_eq!(result.len(), 3);
    for code in &result {
        assert_eq!(code.chars().count(), 8);
        assert!(code.chars().all(|c| c.is_ascii_alphanumeric()));
    }
    for i in 0..result.len() {
        for j in (i + 1)..result.len() {
            assert_ne!(result[i], result[j]);
        }
    }
}

#[test]
fn exhausts_small_custom_charset() {
    let config = Config {
        charset: Charset::Custom("ABC".to_string()),
        count: 9,
        pattern: Pattern::Length(2),
    };

    let result = generate(&config).unwrap();

    assert_eq!(result.len(), 9);
    for code in &result {
        assert_eq!(code.chars().count(), 2);
        assert!(code.chars().all(|c| c == 'A' || c == 'B' || c == 'C'));
    }
    for i in 0..result.len() {
        for j in (i + 1)..result.len() {
            assert_ne!(result[i], result[j]);
        }
    }
}

#[test]
fn duplicated_pool_still_satisfiable_succeeds() {
    // Duplicates inflate the nominal capacity, but both distinct codes
    // exist, so the call must succeed with exactly them.
    let config = Config {
        charset: Charset::Custom("aaaaaaaab".to_string()),
        count: 2,
        pattern: Pattern::Length(1),
    };

    let result = generate(&config).unwrap();

    assert_eq!(result.len(), 2);
    assert!(result.contains(&"a".to_string()));
    assert!(result.contains(&"b".to_string()));
}

#[test]
fn heavily_duplicated_pool_still_satisfiable_succeeds() {
    // A pool of 999 copies of one character and a single copy of another:
    // random draws are unlikely to ever see the rare character, but the
    // deterministic completion must still deliver both codes.
    let mut pool = "a".repeat(999);
    pool.push('b');
    let config = Config {
        charset: Charset::Custom(pool),
        count: 2,
        pattern: Pattern::Length(1),
    };

    let result = generate(&config).unwrap();

    assert_eq!(result.len(), 2);
    assert!(result.contains(&"a".to_string()));
    assert!(result.contains(&"b".to_string()));
}

#[test]
fn duplicate_pool_cannot_fill_nominal_capacity() {
    // Two copies of the same character give a nominal capacity of 2, but
    // only one distinct code exists; the call must fail rather than loop.
    let config = Config {
        charset: Charset::Custom("aa".to_string()),
        count: 2,
        pattern: Pattern::Length(1),
    };

    assert!(generate(&config).is_err());
}

#[test]
fn empty_pool_with_wildcards_fails() {
    let config = Config {
        charset: Charset::Custom("".to_string()),
        count: 1,
        pattern: Pattern::Length(3),
    };

    assert!(!is_feasible(&config));
    assert!(generate(&config).is_err());
}

#[test]
fn default_config_generates_one_code() {
    let config = Config::default();
    assert_eq!(config.count, 1);

    let result = generate(&config).unwrap();

    assert_eq!(result.len(), 1);
    assert_eq!(result[0].chars().count(), 8);
}
