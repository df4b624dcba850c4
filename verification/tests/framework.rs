use darpi::app::{App, BuildError, Server};
use darpi::body::{GraphQLBody, Json};
use darpi::compress::{Brotli, Deflate, Gzip};
use darpi::headers::{ContentEncoding, EncodingType, HeaderError};
use darpi::request::{body_size_limit, PathError, PayloadError, QueryPayloadError, RequestErr};
use darpi::router::{HttpMethod, RouteEntry};
use darpi::scheduler::{CrossRef, MiddlewareSpec, Phase};
use darpi::template::PathTemplate;

#[test]
fn foo_main() {}

#[test]
fn blah_main() {}

#[test]
fn graphql_main() {}

#[test]
fn encoding_names_round_trip() {
    let all = [
        EncodingType::Gzip,
        EncodingType::Deflate,
        EncodingType::Compress,
        EncodingType::Identity,
        EncodingType::Br,
    ];
    for e in all {
        assert_eq!(EncodingType::from_name(e.name()).unwrap(), e);
    }
}

#[test]
fn unknown_encoding_name_is_kept_in_the_error() {
    match EncodingType::from_name("zstd") {
        Err(HeaderError::UnknownName(s)) => assert_eq!(s, "zstd"),
        _ => panic!("expected an unknown-name error"),
    }
}

#[test]
fn content_encoding_append_and_merge_keep_order() {
    let mut a = ContentEncoding::empty();
    a.append(EncodingType::Gzip);
    a.append(EncodingType::Br);
    let mut b = ContentEncoding::empty();
    b.append(EncodingType::Deflate);
    a.merge(b);
    assert_eq!(a.len(), 3);
    assert_eq!(a.get(0), EncodingType::Gzip);
    assert_eq!(a.get(1), EncodingType::Br);
    assert_eq!(a.get(2), EncodingType::Deflate);
}

#[test]
fn content_encoding_parses_a_separated_header() {
    let ce = ContentEncoding::parse("gzip, deflate, br").unwrap();
    assert_eq!(ce.len(), 3);
    assert_eq!(ce.get(0), EncodingType::Gzip);
    assert_eq!(ce.get(1), EncodingType::Deflate);
    assert_eq!(ce.get(2), EncodingType::Br);

    let empty = ContentEncoding::parse("").unwrap();
    assert_eq!(empty.len(), 0);
}

#[test]
fn content_encoding_refuses_unknown_tokens() {
    // a comma without the following space stays inside its piece, which
    // then names no known encoding
    match ContentEncoding::parse("gzip,deflate") {
        Err(HeaderError::UnknownName(t)) => assert_eq!(t, "gzip,deflate"),
        _ => panic!("expected an unknown-name error"),
    }
    match ContentEncoding::parse("gzip, zstd") {
        Err(HeaderError::UnknownName(t)) => assert_eq!(t, "gzip, zstd"),
        _ => panic!("expected an unknown-name error"),
    }
}

#[test]
fn coders_answer_to_their_header_tokens() {
    assert_eq!(Brotli.encoding_type(), EncodingType::Br);
    assert_eq!(Deflate.encoding_type(), EncodingType::Deflate);
    assert_eq!(Gzip.encoding_type(), EncodingType::Gzip);
}

#[test]
fn json_wrapper_hands_its_value_back() {
    let j = Json(41u32);
    assert_eq!(j.into_inner(), 41);
}

#[test]
fn graphql_body_hands_its_value_back() {
    let g: GraphQLBody<&str, ()> = GraphQLBody::new("query");
    assert_eq!(g.into_inner(), "query");
}

#[test]
fn body_size_limit_refuses_oversized_bodies() {
    assert!(body_size_limit(64, None).is_ok());
    assert!(body_size_limit(64, Some(64)).is_ok());
    assert!(body_size_limit(64, Some(63)).is_ok());
    match body_size_limit(64, Some(65)) {
        Err(PayloadError::Size(allowed, announced)) => {
            assert_eq!(allowed, 64);
            assert_eq!(announced, 65);
        },
        _ => panic!("expected a size error"),
    }
}

#[test]
fn request_errors_map_to_a_status() {
    assert_eq!(RequestErr::NotFound.status_code(), 500);
    assert_eq!(RequestErr::NotFound.message(), "Not found");
    assert_eq!(PayloadError::NotExist.status_code(), 500);
    assert_eq!(QueryPayloadError::NotExist.status_code(), 500);
    assert_eq!(PathError::Deserialize(String::from("bad")).status_code(), 500);
}

#[test]
fn app_build_reports_each_declaration_error() {
    assert!(matches!(App::new().build(), Err(BuildError::NoRoutesRegistered)));

    let mut oob = App::new();
    oob.route(RouteEntry {
        template: PathTemplate::parse("/r").unwrap(),
        method: HttpMethod::Get,
        handler: 1,
    });
    oob.middleware(MiddlewareSpec {
        phase: Phase::Request,
        declared_position: 0,
        cross_refs: vec![CrossRef::Request(5)],
    });
    assert!(matches!(oob.build(), Err(BuildError::CrossRefOutOfBounds)));

    let mut tangled = App::new();
    tangled.route(RouteEntry {
        template: PathTemplate::parse("/r").unwrap(),
        method: HttpMethod::Get,
        handler: 1,
    });
    tangled.middleware(MiddlewareSpec {
        phase: Phase::Request,
        declared_position: 0,
        cross_refs: vec![CrossRef::Request(1)],
    });
    tangled.middleware(MiddlewareSpec {
        phase: Phase::Request,
        declared_position: 1,
        cross_refs: vec![CrossRef::Request(0)],
    });
    assert!(matches!(tangled.build(), Err(BuildError::CrossRefNotScheduled)));
}

#[test]
fn server_carries_its_transport_flag() {
    let s = Server { pipeline: true };
    assert!(s.pipeline);
}
