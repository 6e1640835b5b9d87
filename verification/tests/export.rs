use keamogetswe::export::Metadata;
use keamogetswe::metric::EuclideanMetric;
use keamogetswe::space::CubeSpace;

#[test]
fn metadata_holds_its_fields() {
    let m = Metadata {
        name: String::from("Experiment 0: Euclidean validation"),
        metric: String::from("EuclideanMetric"),
        resolution: 128,
    };
    let c = m;
    assert_eq!(c.name, "Experiment 0: Euclidean validation");
    assert_eq!(c.metric, "EuclideanMetric");
    assert_eq!(c.resolution, 128);
}

#[test]
fn unit_types_exist() {
    let _s = CubeSpace;
    let _m = EuclideanMetric;
    assert_eq!(format!("{:?}", CubeSpace), "CubeSpace");
    assert_eq!(format!("{:?}", EuclideanMetric), "EuclideanMetric");
}
