use padd::data::stream::{Stream, StreamSource};

fn source_of(input: &str) -> StreamSource<char> {
    StreamSource::observe(input.chars().collect())
}

fn read_to(stream: &mut Stream, source: &mut StreamSource<char>, to: &mut String, n: usize) {
    for _ in 0..n {
        to.push(stream.pull(source).unwrap())
    }
}

fn read_all(stream: &mut Stream, source: &mut StreamSource<char>, to: &mut String) {
    while stream.has_next(source) {
        to.push(stream.pull(source).unwrap())
    }
}

#[test]
fn as_iterator() {
    let mut source = source_of("erlerlkjrf4093452ri2309u0ur045thejhefkj");
    let mut stream = source.split();

    let mut res = String::new();

    loop {
        match stream.pull(&mut source) {
            None => break,
            Some(c) => res.push(c),
        }
    }

    assert_eq!(res, "erlerlkjrf4093452ri2309u0ur045thejhefkj");
}

#[test]
fn as_iterator_consumed() {
    let mut source = source_of("erlerlkjrf4093452ri2309u0ur045thejhefkj");
    let base = source.split();

    let mut res_pulled = String::new();
    let mut res_consumed = String::new();

    {
        let mut stream = base.consumer();

        loop {
            match stream.pull(&mut source) {
                None => break,
                Some(c) => res_pulled.push(c),
            }
            if let Some(list) = stream.consume(&mut source) {
                assert_eq!(list.len(), 1);
                res_consumed.push(list[0]);
            }
        }
    }

    assert_eq!(res_pulled, "erlerlkjrf4093452ri2309u0ur045thejhefkj");
    assert_eq!(res_consumed, "erlerlkjrf4093452ri2309u0ur045thejhefkj");
}

#[test]
fn unconsumed_replay() {
    let mut source = source_of("abcdef");
    let mut stream = source.split();

    let mut res = String::new();

    for _ in 0..3 {
        match stream.pull(&mut source) {
            None => break,
            Some(c) => res.push(c),
        }
    }
    stream.replay(&mut source);
    loop {
        match stream.pull(&mut source) {
            None => break,
            Some(c) => res.push(c),
        }
    }

    assert_eq!(res, "abcabcdef");
}

#[test]
fn consumed_replay() {
    let mut source = source_of("abcdef");
    let base = source.split();

    let mut res_pulled = String::new();
    let mut res_consumed = String::new();

    {
        let mut stream = base.consumer();

        for _ in 0..3 {
            match stream.pull(&mut source) {
                None => break,
                Some(c) => res_pulled.push(c),
            }
        }
        if let Some(list) = stream.consume(&mut source) {
            for c in list {
                res_consumed.push(c);
            }
        }
        loop {
            match stream.pull(&mut source) {
                None => break,
                Some(c) => res_pulled.push(c),
            }
        }
        stream.replay(&mut source);
        loop {
            match stream.pull(&mut source) {
                None => break,
                Some(c) => res_pulled.push(c),
            }
        }
        if let Some(list) = stream.consume(&mut source) {
            for c in list {
                res_consumed.push(c);
            }
        }
    }

    assert_eq!(res_pulled, "abcdefdef");
    assert_eq!(res_consumed, "abcdef");
}

#[test]
fn consumer_block() {
    let mut source = source_of("abcdef");
    let base = source.split();

    let mut res_pulled = String::new();
    let mut res_consumed = String::new();

    {
        let mut stream = base.consumer();

        stream.block();
        loop {
            match stream.pull(&mut source) {
                None => break,
                Some(c) => res_pulled.push(c),
            }
        }
        if let Some(list) = stream.consume(&mut source) {
            for c in list {
                res_consumed.push(c);
            }
        }
        stream.replay(&mut source);
        loop {
            match stream.pull(&mut source) {
                None => break,
                Some(c) => res_pulled.push(c),
            }
        }
        if let Some(list) = stream.unblock().consume(&mut source) {
            for c in list {
                res_consumed.push(c);
            }
        }
        stream.replay(&mut source);
        loop {
            match stream.pull(&mut source) {
                None => break,
                Some(c) => res_pulled.push(c),
            }
        }
    }

    assert_eq!(res_pulled, "abcdefabcdef");
    assert_eq!(res_consumed, "abcdef");
}

#[test]
fn advance() {
    let mut source = source_of("abcdef");
    let mut stream = source.split();

    let mut res = String::new();

    loop {
        match stream.pull(&mut source) {
            None => break,
            Some(c) => res.push(c),
        }
    }
    stream
        .replay(&mut source)
        .advance(&mut source)
        .advance(&mut source)
        .advance(&mut source);
    loop {
        match stream.pull(&mut source) {
            None => break,
            Some(c) => res.push(c),
        }
    }

    assert_eq!(res, "abcdefdef");
}

#[test]
fn has_next() {
    let mut source = source_of("abcdef");
    let base = source.split();
    let mut stream = base.consumer();

    let mut res = String::new();

    for _ in 0..3 {
        assert!(stream.has_next(&mut source));
        res.push(stream.pull(&mut source).unwrap())
    }
    stream.consume(&mut source);
    while stream.has_next(&mut source) {
        res.push(stream.pull(&mut source).unwrap())
    }
    stream.replay(&mut source);
    while stream.has_next(&mut source) {
        res.push(stream.pull(&mut source).unwrap())
    }
    stream.consume(&mut source);

    assert_eq!(res, "abcdefdef");
}

#[test]
fn split_detach_head() {
    let mut source = source_of("abcdefghijklmnopqrstuvwxyz");

    let mut base_res = String::new();
    let mut split_res = String::new();

    let mut base_stream = source.split();
    read_to(&mut base_stream, &mut source, &mut base_res, 10);

    let mut split_stream = base_stream.split(&mut source);
    read_to(&mut split_stream, &mut source, &mut split_res, 5);

    read_all(&mut base_stream, &mut source, &mut base_res);
    read_all(&mut split_stream, &mut source, &mut split_res);

    assert_eq!(base_res, "abcdefghijklmnopqrstuvwxyz");
    assert_eq!(split_res, "klmnopqrstuvwxyz");
}

#[test]
fn split_detach_tail() {
    let mut source = source_of("abcdefghijklmnopqrstuvwxyz");

    let mut stream1_res = String::new();
    let mut stream2_res = String::new();
    let mut stream3_res = String::new();

    let mut stream1 = source.split();
    read_to(&mut stream1, &mut source, &mut stream1_res, 6);

    let mut stream2 = stream1.split(&mut source);
    read_to(&mut stream2, &mut source, &mut stream2_res, 6);

    stream2.detach_tail(&mut source);

    let mut stream3 = stream2.split(&mut source);
    read_to(&mut stream3, &mut source, &mut stream3_res, 6);

    stream2 = stream3.detach_head(&mut source).unwrap();
    read_all(&mut stream2, &mut source, &mut stream2_res);

    assert!(stream2.detach_head(&mut source).is_none());

    assert_eq!(stream1_res, "abcdef");
    assert_eq!(stream2_res, "ghijklmnopqrstuvwxyz");
    assert_eq!(stream3_res, "mnopqr");
}

#[test]
fn deep_split() {
    let mut source = source_of("abcdefghijklmnopqrstuvwxyz");
    let mut stream = source.split();

    let mut res = String::new();

    for _ in 0..12 {
        read_to(&mut stream, &mut source, &mut res, 1);
        stream = stream.split(&mut source);
    }

    read_to(&mut stream, &mut source, &mut res, 1);

    for _ in 0..12 {
        read_to(&mut stream, &mut source, &mut res, 1);
        stream = stream.detach_head(&mut source).unwrap();
    }

    read_to(&mut stream, &mut source, &mut res, 1);

    assert!(stream.detach_head(&mut source).is_none());

    assert_eq!(res, "abcdefghijklmnmlkjihgfedcb");
}
