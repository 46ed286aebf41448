use padd::fmt::pattern::{generate_pattern, parse_pattern, PatternSymbol, Segment};
use padd::parse::{Production, ProductionSymbol};

#[test]
fn parse_pattern_simple() {
    //setup
    let input = "\t \n\n\n\r\n{1}  {2}  {45;something=\n\n \t} {46;somethinelse=\n\n \t;some=}";

    //exercise
    let tree = parse_pattern(input);

    //verify
    assert_eq!(tree.unwrap().to_string(),
               "└── Pattern
    └── Segments
        ├── Segment
        │   └── Filler
        │       └── TFiller <- '\\t \\n\\n\\n\\r\\n'
        └── Segments
            ├── Segment
            │   └── Capture
            │       ├── TLeftBrace <- '{'
            │       ├── CaptureDescriptor
            │       │   └── CaptureIndex
            │       │       └── TNumber <- '1'
            │       └── TRightBrace <- '}'
            └── Segments
                ├── Segment
                │   └── Filler
                │       └── TFiller <- '  '
                └── Segments
                    ├── Segment
                    │   └── Capture
                    │       ├── TLeftBrace <- '{'
                    │       ├── CaptureDescriptor
                    │       │   └── CaptureIndex
                    │       │       └── TNumber <- '2'
                    │       └── TRightBrace <- '}'
                    └── Segments
                        ├── Segment
                        │   └── Filler
                        │       └── TFiller <- '  '
                        └── Segments
                            ├── Segment
                            │   └── Capture
                            │       ├── TLeftBrace <- '{'
                            │       ├── CaptureDescriptor
                            │       │   ├── CaptureIndex
                            │       │   │   └── TNumber <- '45'
                            │       │   ├── TSemi <- ';'
                            │       │   └── Declarations
                            │       │       └── Declaration
                            │       │           ├── TAlpha <- 'something'
                            │       │           ├── TEquals <- '='
                            │       │           └── Value
                            │       │               └── Pattern
                            │       │                   └── Segments
                            │       │                       ├── Segment
                            │       │                       │   └── Filler
                            │       │                       │       └── TFiller <- '\\n\\n \\t'
                            │       │                       └── Segments
                            │       │                           └──  <- 'NULL'
                            │       └── TRightBrace <- '}'
                            └── Segments
                                ├── Segment
                                │   └── Filler
                                │       └── TFiller <- ' '
                                └── Segments
                                    ├── Segment
                                    │   └── Capture
                                    │       ├── TLeftBrace <- '{'
                                    │       ├── CaptureDescriptor
                                    │       │   ├── CaptureIndex
                                    │       │   │   └── TNumber <- '46'
                                    │       │   ├── TSemi <- ';'
                                    │       │   └── Declarations
                                    │       │       ├── Declarations
                                    │       │       │   └── Declaration
                                    │       │       │       ├── TAlpha <- 'somethinelse'
                                    │       │       │       ├── TEquals <- '='
                                    │       │       │       └── Value
                                    │       │       │           └── Pattern
                                    │       │       │               └── Segments
                                    │       │       │                   ├── Segment
                                    │       │       │                   │   └── Filler
                                    │       │       │                   │       └── TFiller <- '\\n\\n \\t'
                                    │       │       │                   └── Segments
                                    │       │       │                       └──  <- 'NULL'
                                    │       │       ├── TSemi <- ';'
                                    │       │       └── Declaration
                                    │       │           ├── TAlpha <- 'some'
                                    │       │           ├── TEquals <- '='
                                    │       │           └── Value
                                    │       │               └──  <- 'NULL'
                                    │       └── TRightBrace <- '}'
                                    └── Segments
                                        └──  <- 'NULL'"
    );
}

#[test]
fn generate_pattern_simple() {
    //setup
    let input = "\t \n\n\n\n{1}  {2}  {4;something=\n\n \t} {3;somethinelse=\n\n \t;some=}";
    let prod = Production {
        lhs: PatternSymbol::Pattern,
        rhs: vec![
            ProductionSymbol::symbol(PatternSymbol::Pattern),
            ProductionSymbol::symbol(PatternSymbol::Pattern),
            ProductionSymbol::symbol(PatternSymbol::Pattern),
            ProductionSymbol::symbol(PatternSymbol::Pattern),
            ProductionSymbol::symbol(PatternSymbol::Pattern),
        ],
    };

    //exercise
    let pattern = generate_pattern(input, &prod, &prod.string_production()).unwrap();

    //verify
    assert_eq!(pattern.segments.len(), 8);
    assert!(match pattern.segments.get(0).unwrap() {
        &Segment::Filler(ref s) => "\t \n\n\n\n" == *s,
        &Segment::Substitution(_) => false,
        &Segment::Capture(_) => false,
    });
    assert!(match pattern.segments.get(1).unwrap() {
        &Segment::Filler(_) => false,
        &Segment::Substitution(_) => false,
        &Segment::Capture(ref c) => c.child_index == 1 && c.declarations.len() == 0,
    });
    assert!(match pattern.segments.get(2).unwrap() {
        &Segment::Filler(ref s) => "  " == *s,
        &Segment::Substitution(_) => false,
        &Segment::Capture(_) => false,
    });
    assert!(match pattern.segments.get(3).unwrap() {
        &Segment::Filler(_) => false,
        &Segment::Substitution(_) => false,
        &Segment::Capture(ref c) => c.child_index == 2 && c.declarations.len() == 0,
    });
    assert!(match pattern.segments.get(4).unwrap() {
        &Segment::Filler(ref s) => "  " == *s,
        &Segment::Substitution(_) => false,
        &Segment::Capture(_) => false,
    });
    assert!(match pattern.segments.get(5).unwrap() {
        &Segment::Filler(_) => false,
        &Segment::Substitution(_) => false,
        &Segment::Capture(ref c) => c.child_index == 4 && c.declarations.len() == 1,
    });
    assert!(match pattern.segments.get(4).unwrap() {
        &Segment::Filler(ref s) => "  " == *s,
        &Segment::Substitution(_) => false,
        &Segment::Capture(_) => false,
    });
    assert!(match pattern.segments.get(7).unwrap() {
        &Segment::Filler(_) => false,
        &Segment::Substitution(_) => false,
        &Segment::Capture(ref c) => c.child_index == 3 && c.declarations.len() == 2,
    });
}

#[test]
fn generate_auto_indexed_pattern_simple() {
    //setup
    let input = "\t \n\n\n\n{1}  {}  {;something=\n\n \t} {;somethinelse=\n\n \t;some=}";
    let prod = Production {
        lhs: PatternSymbol::Pattern,
        rhs: vec![
            ProductionSymbol::symbol(PatternSymbol::Pattern),
            ProductionSymbol::symbol(PatternSymbol::Pattern),
            ProductionSymbol::symbol(PatternSymbol::Pattern),
            ProductionSymbol::symbol(PatternSymbol::Pattern),
            ProductionSymbol::symbol(PatternSymbol::Pattern),
        ],
    };

    //exercise
    let pattern = generate_pattern(input, &prod, &prod.string_production()).unwrap();

    //verify
    assert_eq!(pattern.segments.len(), 8);
    assert!(match pattern.segments.get(0).unwrap() {
        &Segment::Filler(ref s) => "\t \n\n\n\n" == *s,
        &Segment::Substitution(_) => false,
        &Segment::Capture(_) => false,
    });
    assert!(match pattern.segments.get(1).unwrap() {
        &Segment::Filler(_) => false,
        &Segment::Substitution(_) => false,
        &Segment::Capture(ref c) => c.child_index == 1 && c.declarations.len() == 0,
    });
    assert!(match pattern.segments.get(2).unwrap() {
        &Segment::Filler(ref s) => "  " == *s,
        &Segment::Substitution(_) => false,
        &Segment::Capture(_) => false,
    });
    assert!(match pattern.segments.get(3).unwrap() {
        &Segment::Filler(_) => false,
        &Segment::Substitution(_) => false,
        &Segment::Capture(ref c) => c.child_index == 1 && c.declarations.len() == 0,
    });
    assert!(match pattern.segments.get(4).unwrap() {
        &Segment::Filler(ref s) => "  " == *s,
        &Segment::Substitution(_) => false,
        &Segment::Capture(_) => false,
    });
    assert!(match pattern.segments.get(5).unwrap() {
        &Segment::Filler(_) => false,
        &Segment::Substitution(_) => false,
        &Segment::Capture(ref c) => c.child_index == 2 && c.declarations.len() == 1,
    });
    assert!(match pattern.segments.get(4).unwrap() {
        &Segment::Filler(ref s) => "  " == *s,
        &Segment::Substitution(_) => false,
        &Segment::Capture(_) => false,
    });
    assert!(match pattern.segments.get(7).unwrap() {
        &Segment::Filler(_) => false,
        &Segment::Substitution(_) => false,
        &Segment::Capture(ref c) => c.child_index == 3 && c.declarations.len() == 2,
    });
}

#[test]
fn generate_pattern_substitutions() {
    //setup
    let input = "\t \n\r[a]{1}  {} [prefix] ";
    let prod = Production {
        lhs: PatternSymbol::Pattern,
        rhs: vec![
            ProductionSymbol::symbol(PatternSymbol::Pattern),
            ProductionSymbol::symbol(PatternSymbol::Pattern),
        ],
    };

    //exercise
    let pattern = generate_pattern(input, &prod, &prod.string_production()).unwrap();

    //verify
    assert_eq!(pattern.segments.len(), 8);
    assert!(match pattern.segments.get(0).unwrap() {
        &Segment::Filler(ref s) => "\t \n\r" == *s,
        &Segment::Substitution(_) => false,
        &Segment::Capture(_) => false,
    });
    assert!(match pattern.segments.get(1).unwrap() {
        &Segment::Filler(_) => false,
        &Segment::Substitution(ref s) => "a" == *s,
        &Segment::Capture(_) => false,
    });
    assert!(match pattern.segments.get(2).unwrap() {
        &Segment::Filler(_) => false,
        &Segment::Substitution(_) => false,
        &Segment::Capture(ref c) => c.child_index == 1 && c.declarations.len() == 0,
    });
    assert!(match pattern.segments.get(3).unwrap() {
        &Segment::Filler(ref s) => "  " == *s,
        &Segment::Substitution(_) => false,
        &Segment::Capture(_) => false,
    });
    assert!(match pattern.segments.get(4).unwrap() {
        &Segment::Filler(_) => false,
        &Segment::Substitution(_) => false,
        &Segment::Capture(ref c) => c.child_index == 1 && c.declarations.len() == 0,
    });
    assert!(match pattern.segments.get(5).unwrap() {
        &Segment::Filler(ref s) => " " == *s,
        &Segment::Substitution(_) => false,
        &Segment::Capture(_) => false,
    });
    assert!(match pattern.segments.get(6).unwrap() {
        &Segment::Filler(_) => false,
        &Segment::Substitution(ref s) => "prefix" == *s,
        &Segment::Capture(_) => false,
    });
    assert!(match pattern.segments.get(7).unwrap() {
        &Segment::Filler(ref s) => " " == *s,
        &Segment::Substitution(_) => false,
        &Segment::Capture(_) => false,
    });
}

#[test]
fn generate_pattern_escaped_filler() {
    //setup
    let input = "1234567890abcdefghijklmnopqrstuvwxyz \n\t`~!@#$%^&*()_-+:'\"<>,.?/|{}\\{\\}\\[\\]\\;\\=\\\\";
    let prod = Production {
        lhs: PatternSymbol::Pattern,
        rhs: vec![ProductionSymbol::symbol(PatternSymbol::Pattern)],
    };

    //exercise
    let pattern = generate_pattern(input, &prod, &prod.string_production()).unwrap();

    //verify
    assert_eq!(pattern.segments.len(), 5);
    assert!(match pattern.segments.get(0).unwrap() {
        &Segment::Filler(ref s) => "1234567890" == *s,
        &Segment::Substitution(_) => false,
        &Segment::Capture(_) => false,
    });
    assert!(match pattern.segments.get(1).unwrap() {
        &Segment::Filler(ref s) => "abcdefghijklmnopqrstuvwxyz" == *s,
        &Segment::Substitution(_) => false,
        &Segment::Capture(_) => false,
    });
    assert!(match pattern.segments.get(2).unwrap() {
        &Segment::Filler(ref s) => " \n\t`~!@#$%^&*()_-+:'\"<>,.?/|" == *s,
        &Segment::Substitution(_) => false,
        &Segment::Capture(_) => false,
    });
    assert!(match pattern.segments.get(3).unwrap() {
        &Segment::Filler(_) => false,
        &Segment::Substitution(_) => false,
        &Segment::Capture(ref c) => c.child_index == 0 && c.declarations.len() == 0,
    });
    assert!(match pattern.segments.get(4).unwrap() {
        &Segment::Filler(ref s) => "{}[];=\\" == *s,
        &Segment::Substitution(_) => false,
        &Segment::Capture(_) => false,
    });
}

#[test]
fn pattern_lex_error() {
    //setup
    let input = "\\";
    let prod = Production {
        lhs: PatternSymbol::Pattern,
        rhs: vec![],
    };

    //exercise
    let res = generate_pattern(input, &prod, &prod.string_production());

    //verify
    assert!(res.is_err());
    assert_eq!(
        res.err().unwrap().message(),
        "Pattern lex error: No accepting tokens after (1,1): \\..."
    );
}

#[test]
fn pattern_parse_error() {
    //setup
    let input = "{";
    let prod = Production {
        lhs: PatternSymbol::Pattern,
        rhs: vec![],
    };

    //exercise
    let res = generate_pattern(input, &prod, &prod.string_production());

    //verify
    assert!(res.is_err());
    assert_eq!(
        res.err().unwrap().message(),
        "Pattern parse error: Recognition failed after consuming all tokens"
    );
}

#[test]
fn pattern_capture_error() {
    //setup
    let input = "{1}";
    let prod = Production {
        lhs: PatternSymbol::Pattern,
        rhs: vec![ProductionSymbol::symbol(PatternSymbol::TSemi)],
    };

    //exercise
    let res = generate_pattern(input, &prod, &prod.string_production());

    //verify
    assert!(res.is_err());
    assert_eq!(
        res.err().unwrap().message(),
        "Pattern capture error: \
             Capture index 1 out of bounds for production 'Pattern TSemi' with 1 children"
    );
}
