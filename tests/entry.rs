use qlog::entry::malformed_numbers;
use qlog::{Entry, EntryParser};

#[test]
fn test_gql_query() {
    let line1: &str = "Dec 30 20:55:13.071 INFO Query timing (GraphQL), \
                         block: 10344025, \
                         query_time_ms: 160, \
                         variables: null, \
                         query: query Stuff { things } , \
                         query_id: f-1-4-b-e4, \
                         subgraph_id: QmSuBgRaPh, \
                         component: GraphQlRunner\n";
    let line2: &str = "Dec 31 23:59:59.667 INFO Query timing (GraphQL), \
                         block: 10344025, \
                         query_time_ms: 125, \
                         variables: {}, \
                         query: query { things(id:\"1\") { id }} , \
                         query_id: f2-6b-48-b6-6b, \
                         subgraph_id: QmSuBgRaPh, \
                         component: GraphQlRunner";
    let line3: &str = "Dec 31 23:59:59.739 INFO Query timing (GraphQL), \
                         block: 10344025, \
                         query_time_ms: 14, \
                         variables: null, \
                         query: query TranscoderQuery { transcoders(first: 1) { id } } , \
                         query_id: c5-d3-4e-92-37, \
                         subgraph_id: QmeYBGccAwahY, \
                         component: GraphQlRunner";
    let line4: &str = "Dec 31 23:59:59.846 INFO Query timing (GraphQL), \
         block: 10344025, \
         query_time_ms: 12, \
         variables: {\"id\":\"0xdeadbeef\"}, \
         query: query exchange($id: String!) { exchange(id: $id) { id tokenAddress } } , \
         query_id: c8-1c-4c-98-65, \
         subgraph_id: QmSuBgRaPh, \
         component: GraphQlRunner";

    let line5: &str = "Dec 31 22:59:58.863 INFO Query timing (GraphQL), \
                         block: 1234, \
                         query_time_ms: 2657, \
                         variables: {\"_v1_first\":100,\"_v2_where\":{\"status\":\"Registered\"},\"_v0_skip\":0}, \
                         query: query TranscodersQuery($_v0_skip: Int, $_v1_first: Int, $_v2_where: Transcoder_filter) { transcoders(where: $_v2_where, skip: $_v0_skip, first: $_v1_first) { ...TranscoderFragment __typename } }  fragment TranscoderFragment on Transcoder { id active status lastRewardRound { id __typename } rewardCut feeShare pricePerSegment pendingRewardCut pendingFeeShare pendingPricePerSegment totalStake pools(orderBy: id, orderDirection: desc) { rewardTokens round { id __typename } __typename } __typename } , \
                         query_id: 2d-12-4b-a8-6b, \
                         subgraph_id: QmSuBgRaPh, \
                         component: GraphQlRunner";

    let line6: &str = "Jun 26 22:12:02.295 INFO Query timing (GraphQL), \
                         complexity: 4711, \
                         block: 10344025, \
                         query_time_ms: 10, \
                         variables: null, \
                         query: { rateUpdates(orderBy: timestamp, orderDirection: desc, where: {synth: \"sEUR\", timestamp_gte: 1593123133, timestamp_lte: 1593209533}, first: 1000, skip: 0) { id synth rate block timestamp } } , \
                         query_id: cb9af68f-ae60-4dba-b9b3-89aee6fe8eca, \
                         subgraph_id: QmaSubgraph, component: GraphQlRunner";

    // Ignore this; it only differs in complexity from LINE6, and we don't
    // process complexity
    let _line7: &str = "Jun 26 22:12:02.295 INFO Query timing (GraphQL), \
                         complexity: 0, \
                         block: 10344025, \
                         query_time_ms: 10, \
                         variables: null, \
                         query: { rateUpdates(orderBy: timestamp, orderDirection: desc, where: {synth: \"sEUR\", timestamp_gte: 1593123133, timestamp_lte: 1593209533}, first: 1000, skip: 0) { id synth rate block timestamp } } , \
                         query_id: cb9af68f-ae60-4dba-b9b3-89aee6fe8eca, \
                         subgraph_id: QmaSubgraph, component: GraphQlRunner";

    // Ignore this; it only differs in complexity from LINE6, and we don't
    // process complexity
    let _line8: &str = "Jun 25 10:00:00.074 INFO Query timing (GraphQL), \
                         block: 10334284, \
                         query_time_ms: 7, \
                         variables: null, \
                         query: { rateUpdates(orderBy: timestamp, orderDirection: desc, where: {synth: \"sUSD\", timestamp_gte: 1592992799, timestamp_lte: 1593079199}, first: 1000, skip: 0) { id synth rate block timestamp } } , \
                         query_id: e020b60e-478f-41ce-b555-82d1ad88050b, \
                         subgraph_id: QmaSubgraph, component: GraphQlRunner";

    let exp = Entry {
        subgraph: "QmSuBgRaPh".into(),
        block: 10344025,
        time: 160,
        query: "query Stuff { things }".into(),
        variables: "null".into(),
        query_id: "f-1-4-b-e4".into(),
        timestamp: None,
    };
    let entry = Entry::parse(line1, None);
    assert_eq!(Some(exp), entry);

    let exp = Entry {
        subgraph: "QmSuBgRaPh".into(),
        block: 10344025,
        time: 125,
        query: "query { things(id:\"1\") { id }}".into(),
        variables: "{}".into(),
        query_id: "f2-6b-48-b6-6b".into(),
        timestamp: None,
    };
    let entry = Entry::parse(line2, None);
    assert_eq!(Some(exp), entry);

    let exp = Entry {
        subgraph: "QmeYBGccAwahY".into(),
        block: 10344025,
        time: 14,
        query: "query TranscoderQuery { transcoders(first: 1) { id } }".into(),
        variables: "null".into(),
        query_id: "c5-d3-4e-92-37".into(),
        timestamp: None,
    };
    let entry = Entry::parse(line3, None);
    assert_eq!(Some(exp), entry);

    let exp = Entry {
        subgraph: "QmSuBgRaPh".into(),
        block: 10344025,
        time: 12,
        query: "query exchange($id: String!) { exchange(id: $id) { id tokenAddress } }".into(),
        variables: "{\"id\":\"0xdeadbeef\"}".into(),
        query_id: "c8-1c-4c-98-65".into(),
        timestamp: None,
    };
    let entry = Entry::parse(line4, None);
    assert_eq!(Some(exp), entry);

    let exp = Entry {
        subgraph: "QmSuBgRaPh".into(),
        block: 1234,
        time: 2657,
        query: "query TranscodersQuery($_v0_skip: Int, $_v1_first: Int, $_v2_where: Transcoder_filter) { transcoders(where: $_v2_where, skip: $_v0_skip, first: $_v1_first) { ...TranscoderFragment __typename } }  fragment TranscoderFragment on Transcoder { id active status lastRewardRound { id __typename } rewardCut feeShare pricePerSegment pendingRewardCut pendingFeeShare pendingPricePerSegment totalStake pools(orderBy: id, orderDirection: desc) { rewardTokens round { id __typename } __typename } __typename }".into(),
        variables: "{\"_v1_first\":100,\"_v2_where\":{\"status\":\"Registered\"},\"_v0_skip\":0}".into(),
        query_id: "2d-12-4b-a8-6b".into(),
        timestamp: None
    };
    let entry = Entry::parse(line5, None);
    assert_eq!(Some(exp), entry);

    let exp = Entry {
        subgraph: "QmaSubgraph".into(),
        block: 10344025,
        time: 10,
        query: "{ rateUpdates(orderBy: timestamp, orderDirection: desc, where: {synth: \"sEUR\", timestamp_gte: 1593123133, timestamp_lte: 1593209533}, first: 1000, skip: 0) { id synth rate block timestamp } }".into(),
        variables: "null".into(),
        query_id: "cb9af68f-ae60-4dba-b9b3-89aee6fe8eca".into(),
        timestamp: None
    };
    let entry = Entry::parse(line6, None);
    assert_eq!(Some(exp), entry);
}

#[test]
fn field_takes_first_suffix_after_prefix() {
    assert_eq!(qlog::field("a: 1, b: 2, c: 3", "b: ", ","), Some("2".to_string()));
    assert_eq!(qlog::field("a: 1, b: 2", "b: ", ","), None);
    assert_eq!(qlog::field("a: 1, b: 2", "x: ", ","), None);
    assert_eq!(qlog::field("a: 1,", "a: ", ""), Some("".to_string()));
}

#[test]
fn rfield_takes_last_suffix_after_prefix() {
    assert_eq!(
        qlog::rfield("q: x , id: y , id: z", "q: ", " , id:"),
        Some("x , id: y".to_string())
    );
    assert_eq!(qlog::field("q: x , id: y , id: z", "q: ", " , id:"), Some("x".to_string()));
    assert_eq!(qlog::rfield("id: y q: x", "q: ", " , id:"), None);
}

fn line_with(block: &str, time: &str) -> String {
    format!(
        "Dec 30 20:55:13.071 INFO Query timing (GraphQL), block: {}, query_time_ms: {}, \
         variables: null, query: {{ a }} , query_id: x-1, subgraph_id: Qm, component: G",
        block, time
    )
}

#[test]
fn malformed_numbers_count_as_zero() {
    let e = Entry::parse(&line_with("abc", "+42"), None).unwrap();
    assert_eq!(e.block, 0);
    assert_eq!(e.time, 42);
    let e = Entry::parse(&line_with("18446744073709551616", "-1"), None).unwrap();
    assert_eq!(e.block, 0);
    assert_eq!(e.time, 0);
    let e = Entry::parse(&line_with("18446744073709551615", "+"), None).unwrap();
    assert_eq!(e.block, 18446744073709551615);
    assert_eq!(e.time, 0);
}

#[test]
fn missing_field_rejects_line() {
    let line = "Dec 30 20:55:13.071 INFO Query timing (GraphQL), block: 1, query_time_ms: 2, \
                variables: null, query: { a } , subgraph_id: Qm, component: G";
    assert_eq!(Entry::parse(line, None), None);
    assert_eq!(Entry::parse("Dec 30 20:55:13.071 INFO Something else", None), None);
}

#[test]
fn timestamp_is_attached_verbatim() {
    let line = line_with("7", "8");
    let e = Entry::parse(&line, Some("2020-12-30T20:55:13Z")).unwrap();
    assert_eq!(e.timestamp, Some("2020-12-30T20:55:13Z".to_string()));
    assert_eq!(e.subgraph, "Qm");
    assert_eq!(e.query, "{ a }");
    assert_eq!(e.query_id, "x-1");
    assert_eq!(e.variables, "null");
}

#[test]
fn text_parser_reads_text_lines() {
    let parser = qlog::TextEntryParser {};
    let e = parser.parse(&line_with("7", "8")).unwrap();
    assert_eq!((e.block, e.time, e.timestamp), (7, 8, None));
    assert_eq!(parser.parse("not a query"), None);
}

#[test]
fn zero_is_zero() {
    assert_eq!(qlog::zero(), 0);
}

#[test]
fn malformed_numbers_are_reported() {
    assert_eq!(malformed_numbers(&line_with("abc", "+42")), (true, false));
    assert_eq!(malformed_numbers(&line_with("7", "x")), (false, true));
    assert_eq!(malformed_numbers(&line_with("7", "8")), (false, false));
    assert_eq!(malformed_numbers("no fields at all"), (false, false));
}
