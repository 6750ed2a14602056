use crate::field::{congruent, lemma_congruent_product, modulus};
use crate::scalar::largest_root_of_unity;
use vstd::arithmetic::power::{lemma_pow1, lemma_pow_adds, pow};
use vstd::arithmetic::power2::{lemma2_to64, lemma_pow2_unfold, pow2};
use vstd::prelude::*;

verus! {

/// Squaring a power of the root doubles the exponent.
proof fn lemma_square_step(i: nat, c: int)
    requires
        congruent(pow(largest_root_of_unity(), pow2(i)), c),
    ensures
        congruent(pow(largest_root_of_unity(), pow2(i + 1)), c * c),
{
    let x = pow(largest_root_of_unity(), pow2(i));
    lemma_pow2_unfold(i + 1);
    lemma_pow_adds(largest_root_of_unity(), pow2(i), pow2(i));
    lemma_congruent_product(x, c, x, c);
}

/// The first eight squarings of the root.
proof fn lemma_root_squarings_8()
    ensures
        congruent(pow(largest_root_of_unity(), pow2(8)), 18596002123094854211120822350746157678791770803088570110573239418060655130524int),
{
    lemma2_to64();
    lemma_pow1(largest_root_of_unity());
    lemma_square_step(0, 10238227357739495823651030575849232062558860180284477541189508159991286009131int);
    assert((10238227357739495823651030575849232062558860180284477541189508159991286009131int * 10238227357739495823651030575849232062558860180284477541189508159991286009131int) % modulus() == 34070893824967080313820779135880760772780807222436853681508667398599787661631int % modulus());
    lemma_square_step(1, 34070893824967080313820779135880760772780807222436853681508667398599787661631int);
    assert((34070893824967080313820779135880760772780807222436853681508667398599787661631int * 34070893824967080313820779135880760772780807222436853681508667398599787661631int) % modulus() == 20094891866007995289136270587723853997043774683345353712639419774914899074390int % modulus());
    lemma_square_step(2, 20094891866007995289136270587723853997043774683345353712639419774914899074390int);
    assert((20094891866007995289136270587723853997043774683345353712639419774914899074390int * 20094891866007995289136270587723853997043774683345353712639419774914899074390int) % modulus() == 5660829372603820951332104046316074966592589311213397907344198301300676239643int % modulus());
    lemma_square_step(3, 5660829372603820951332104046316074966592589311213397907344198301300676239643int);
    assert((5660829372603820951332104046316074966592589311213397907344198301300676239643int * 5660829372603820951332104046316074966592589311213397907344198301300676239643int) % modulus() == 37480612446576615530266821837655054090426372233228960378061628060638903214217int % modulus());
    lemma_square_step(4, 37480612446576615530266821837655054090426372233228960378061628060638903214217int);
    assert((37480612446576615530266821837655054090426372233228960378061628060638903214217int * 37480612446576615530266821837655054090426372233228960378061628060638903214217int) % modulus() == 15932505959375582308231798849995567447410469395474322018100309999481287547373int % modulus());
    lemma_square_step(5, 15932505959375582308231798849995567447410469395474322018100309999481287547373int);
    assert((15932505959375582308231798849995567447410469395474322018100309999481287547373int * 15932505959375582308231798849995567447410469395474322018100309999481287547373int) % modulus() == 4541622677469846713471916119560591929733417256448031920623614406126544048514int % modulus());
    lemma_square_step(6, 4541622677469846713471916119560591929733417256448031920623614406126544048514int);
    assert((4541622677469846713471916119560591929733417256448031920623614406126544048514int * 4541622677469846713471916119560591929733417256448031920623614406126544048514int) % modulus() == 734830308204920577628633053915970695663549910788964686411700880930222744862int % modulus());
    lemma_square_step(7, 734830308204920577628633053915970695663549910788964686411700880930222744862int);
    assert((734830308204920577628633053915970695663549910788964686411700880930222744862int * 734830308204920577628633053915970695663549910788964686411700880930222744862int) % modulus() == 18596002123094854211120822350746157678791770803088570110573239418060655130524int % modulus());
}

/// The squarings of the root up to the sixteenth.
proof fn lemma_root_squarings_16()
    ensures
        congruent(pow(largest_root_of_unity(), pow2(16)), 15076889834420168339092859836519192632846122361203618639585008852351569017005int),
{
    lemma_root_squarings_8();
    lemma_square_step(8, 18596002123094854211120822350746157678791770803088570110573239418060655130524int);
    assert((18596002123094854211120822350746157678791770803088570110573239418060655130524int * 18596002123094854211120822350746157678791770803088570110573239418060655130524int) % modulus() == 52167942466760591552294394977846462646742207006759917080697723404762651336366int % modulus());
    lemma_square_step(9, 52167942466760591552294394977846462646742207006759917080697723404762651336366int);
    assert((52167942466760591552294394977846462646742207006759917080697723404762651336366int * 52167942466760591552294394977846462646742207006759917080697723404762651336366int) % modulus() == 4859563557044021881916617240989566298388494151979623102977292742331120628579int % modulus());
    lemma_square_step(10, 4859563557044021881916617240989566298388494151979623102977292742331120628579int);
    assert((4859563557044021881916617240989566298388494151979623102977292742331120628579int * 4859563557044021881916617240989566298388494151979623102977292742331120628579int) % modulus() == 32468834368094611004052562760214251466632493208153926274007662173556188291130int % modulus());
    lemma_square_step(11, 32468834368094611004052562760214251466632493208153926274007662173556188291130int);
    assert((32468834368094611004052562760214251466632493208153926274007662173556188291130int * 32468834368094611004052562760214251466632493208153926274007662173556188291130int) % modulus() == 1755840822790712607783180844474754741366353396308200820563736496551326485835int % modulus());
    lemma_square_step(12, 1755840822790712607783180844474754741366353396308200820563736496551326485835int);
    assert((1755840822790712607783180844474754741366353396308200820563736496551326485835int * 1755840822790712607783180844474754741366353396308200820563736496551326485835int) % modulus() == 37115000097562964541269718788523040559386243094666416358585267518228781043101int % modulus());
    lemma_square_step(13, 37115000097562964541269718788523040559386243094666416358585267518228781043101int);
    assert((37115000097562964541269718788523040559386243094666416358585267518228781043101int * 37115000097562964541269718788523040559386243094666416358585267518228781043101int) % modulus() == 20439484849038267462774237595151440867617792718791690563928621375157525968123int % modulus());
    lemma_square_step(14, 20439484849038267462774237595151440867617792718791690563928621375157525968123int);
    assert((20439484849038267462774237595151440867617792718791690563928621375157525968123int * 20439484849038267462774237595151440867617792718791690563928621375157525968123int) % modulus() == 15495926509001846844474268026226183818445427694968626800913907911890390421264int % modulus());
    lemma_square_step(15, 15495926509001846844474268026226183818445427694968626800913907911890390421264int);
    assert((15495926509001846844474268026226183818445427694968626800913907911890390421264int * 15495926509001846844474268026226183818445427694968626800913907911890390421264int) % modulus() == 15076889834420168339092859836519192632846122361203618639585008852351569017005int % modulus());
}

/// The squarings of the root up to the twenty-fourth.
proof fn lemma_root_squarings_24()
    ensures
        congruent(pow(largest_root_of_unity(), pow2(24)), 36007022166693598376559747923784822035233416720563672082740011604939309541707int),
{
    lemma_root_squarings_16();
    lemma_square_step(16, 15076889834420168339092859836519192632846122361203618639585008852351569017005int);
    assert((15076889834420168339092859836519192632846122361203618639585008852351569017005int * 15076889834420168339092859836519192632846122361203618639585008852351569017005int) % modulus() == 22872204467218851938836547481240843888453165451755431061227190987689039608686int % modulus());
    lemma_square_step(17, 22872204467218851938836547481240843888453165451755431061227190987689039608686int);
    assert((22872204467218851938836547481240843888453165451755431061227190987689039608686int * 22872204467218851938836547481240843888453165451755431061227190987689039608686int) % modulus() == 39072540533732477250409069030641316533649120504872707460480262653418090977761int % modulus());
    lemma_square_step(18, 39072540533732477250409069030641316533649120504872707460480262653418090977761int);
    assert((39072540533732477250409069030641316533649120504872707460480262653418090977761int * 39072540533732477250409069030641316533649120504872707460480262653418090977761int) % modulus() == 32731401973776920074999878620293785439674386180695720638377027142500196583783int % modulus());
    lemma_square_step(19, 32731401973776920074999878620293785439674386180695720638377027142500196583783int);
    assert((32731401973776920074999878620293785439674386180695720638377027142500196583783int * 32731401973776920074999878620293785439674386180695720638377027142500196583783int) % modulus() == 39033254847818212395286706435128746857159659164139250548781411570340225835782int % modulus());
    lemma_square_step(20, 39033254847818212395286706435128746857159659164139250548781411570340225835782int);
    assert((39033254847818212395286706435128746857159659164139250548781411570340225835782int * 39033254847818212395286706435128746857159659164139250548781411570340225835782int) % modulus() == 49307615728544765012166121802278658070711169839041683575071795236746050763237int % modulus());
    lemma_square_step(21, 49307615728544765012166121802278658070711169839041683575071795236746050763237int);
    assert((49307615728544765012166121802278658070711169839041683575071795236746050763237int * 49307615728544765012166121802278658070711169839041683575071795236746050763237int) % modulus() == 22781213702924172180523978385542388841346373992886390990881355510284839737428int % modulus());
    lemma_square_step(22, 22781213702924172180523978385542388841346373992886390990881355510284839737428int);
    assert((22781213702924172180523978385542388841346373992886390990881355510284839737428int * 22781213702924172180523978385542388841346373992886390990881355510284839737428int) % modulus() == 4214636447306890335450803789410475782380792963881561516561680164772024173390int % modulus());
    lemma_square_step(23, 4214636447306890335450803789410475782380792963881561516561680164772024173390int);
    assert((4214636447306890335450803789410475782380792963881561516561680164772024173390int * 4214636447306890335450803789410475782380792963881561516561680164772024173390int) % modulus() == 36007022166693598376559747923784822035233416720563672082740011604939309541707int % modulus());
}

/// The squarings of the root up to the thirty-first.
proof fn lemma_root_squarings_31()
    ensures
        congruent(pow(largest_root_of_unity(), pow2(31)), 52435875175126190479447740508185965837690552500527637822603658699938581184512int),
{
    lemma_root_squarings_24();
    lemma_square_step(24, 36007022166693598376559747923784822035233416720563672082740011604939309541707int);
    assert((36007022166693598376559747923784822035233416720563672082740011604939309541707int * 36007022166693598376559747923784822035233416720563672082740011604939309541707int) % modulus() == 47309214877430199588914062438791732591241783999377560080318349803002842391998int % modulus());
    lemma_square_step(25, 47309214877430199588914062438791732591241783999377560080318349803002842391998int);
    assert((47309214877430199588914062438791732591241783999377560080318349803002842391998int * 47309214877430199588914062438791732591241783999377560080318349803002842391998int) % modulus() == 31519469946562159605140591558550197856588417350474800936898404023113662197331int % modulus());
    lemma_square_step(26, 31519469946562159605140591558550197856588417350474800936898404023113662197331int);
    assert((31519469946562159605140591558550197856588417350474800936898404023113662197331int * 31519469946562159605140591558550197856588417350474800936898404023113662197331int) % modulus() == 36581797046584068049060372878520385032448812009597153775348195406694427778894int % modulus());
    lemma_square_step(27, 36581797046584068049060372878520385032448812009597153775348195406694427778894int);
    assert((36581797046584068049060372878520385032448812009597153775348195406694427778894int * 36581797046584068049060372878520385032448812009597153775348195406694427778894int) % modulus() == 14788168760825820622209131888203028446852016562542525606630160374691593895118int % modulus());
    lemma_square_step(28, 14788168760825820622209131888203028446852016562542525606630160374691593895118int);
    assert((14788168760825820622209131888203028446852016562542525606630160374691593895118int * 14788168760825820622209131888203028446852016562542525606630160374691593895118int) % modulus() == 23674694431658770659612952115660802947967373701506253797663184111817857449850int % modulus());
    lemma_square_step(29, 23674694431658770659612952115660802947967373701506253797663184111817857449850int);
    assert((23674694431658770659612952115660802947967373701506253797663184111817857449850int * 23674694431658770659612952115660802947967373701506253797663184111817857449850int) % modulus() == 3465144826073652318776269530687742778270252468765361963008int % modulus());
    lemma_square_step(30, 3465144826073652318776269530687742778270252468765361963008int);
    assert((3465144826073652318776269530687742778270252468765361963008int * 3465144826073652318776269530687742778270252468765361963008int) % modulus() == 52435875175126190479447740508185965837690552500527637822603658699938581184512int % modulus());
}

/// The root of unity has order exactly `2^32`: its power `2^31` is minus
/// one, and so its power `2^32` is one.
pub proof fn lemma_root_order()
    ensures
        congruent(pow(largest_root_of_unity(), pow2(31)), -1),
        congruent(pow(largest_root_of_unity(), pow2(32)), 1),
{
    lemma_root_squarings_31();
    lemma_square_step(31, 52435875175126190479447740508185965837690552500527637822603658699938581184512int);
    assert((52435875175126190479447740508185965837690552500527637822603658699938581184512int * 52435875175126190479447740508185965837690552500527637822603658699938581184512int) % modulus() == 1int % modulus());
    assert(52435875175126190479447740508185965837690552500527637822603658699938581184512int % modulus() == (-1int) % modulus());
}

} // verus!
