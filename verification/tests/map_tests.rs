use rcc::map::KeyMap;

#[test]
fn map_test() {
    {
        // データが存在しない.
        let mut m = KeyMap::<String>::new();
        let k = "key".to_string();
        let v = "value".to_string();
        m.add(k, v);

        assert_eq!(m.count, 1)
    }
    {
        // データが存在.
        let mut m = KeyMap::<String>::new();
        let k = "key".to_string();
        let v = "value".to_string();
        m.add(k.clone(), v.clone());
        m.add(k.clone(), v.clone());

        assert_eq!(m.count, 1)
    }
    {
        // データが満タン.
        let mut m = KeyMap::<String>::new();
        let v = "value".to_string();
        for i in 0..1024 {
            m.add(i.to_string(), v.clone());
        }
        m.add("t".to_string(), v.clone());

        assert_eq!(m.count, 1025)
    }
}
